//! The search core: one directional frontier (`AStarData`) with its open and
//! closed lists, and the bidirectional coordinator (`AStarBidirectional`)
//! that owns one or two frontiers, detects termination and stitches the path.

use vstd::prelude::*;
use vstd::seq_lib::*;
use vstd::set_lib::*;
use crate::node::{Position, Direction, Cost, Node, spec_h_cost, spec_prefer, prefer,
    spec_directions, directions, H_LIMIT};
use crate::grid::{GridModel, GridType, NeighbourError, Grid, Cell};
use crate::MAX_DIM;

verus! {

/// One open- or closed-list record: a node together with its cost.
#[derive(Clone, Copy, Debug)]
pub struct Entry {
    pub node: Node,
    pub cost: Cost,
}

/// Whether some entry of `s` sits at position `p`.
pub open spec fn has_pos(s: Seq<Entry>, p: Position) -> bool {
    exists|i: int| 0 <= i < s.len() && s[i].node.pos == p
}

/// The index of the entry at position `p`; meaningful only under
/// `distinct_positions`, where it is unique.
pub open spec fn pos_idx(s: Seq<Entry>, p: Position) -> int {
    choose|i: int| 0 <= i < s.len() && s[i].node.pos == p
}

/// Under `distinct_positions`, the chosen index for an entry's position is
/// that entry's own index: a position determines its entry.
pub proof fn lemma_pos_idx_at(s: Seq<Entry>, i: int)
    requires
        distinct_positions(s),
        0 <= i < s.len(),
    ensures
        has_pos(s, s[i].node.pos),
        pos_idx(s, s[i].node.pos) == i,
{
    let q = s[i].node.pos;
    assert(has_pos(s, q));
    let j = pos_idx(s, q);
    assert(0 <= j < s.len() && s[j].node.pos == q);
    if j < i {
        assert(s[j].node.pos != s[i].node.pos);
    }
    if j > i {
        assert(s[i].node.pos != s[j].node.pos);
    }
}

/// At most one entry per position.
pub open spec fn distinct_positions(s: Seq<Entry>) -> bool {
    forall|i: int, j: int|
        0 <= i < j < s.len() ==> (#[trigger] s[i]).node.pos != (#[trigger] s[j]).node.pos
}

/// No position occurs in both sequences.
pub open spec fn disjoint_positions(a: Seq<Entry>, b: Seq<Entry>) -> bool {
    forall|i: int, j: int|
        0 <= i < a.len() && 0 <= j < b.len() ==> (#[trigger] a[i]).node.pos != (
        #[trigger] b[j]).node.pos
}

/// The positions of the entries, in order.
pub open spec fn positions_of(s: Seq<Entry>) -> Seq<Position> {
    s.map_values(|e: Entry| e.node.pos)
}

/// All positions lie strictly inside the largest supported grid.
pub open spec fn pos_bounded(s: Seq<Entry>) -> bool {
    forall|i: int|
        0 <= i < s.len() ==> (#[trigger] s[i]).node.pos.x < MAX_DIM && s[i].node.pos.y < MAX_DIM
}

/// All heuristic components are at most `H_LIMIT`.
pub open spec fn h_bounded(s: Seq<Entry>) -> bool {
    forall|i: int| 0 <= i < s.len() ==> (#[trigger] s[i]).cost.h_cost <= H_LIMIT
}

/// All accumulated costs are at most `b`.
pub open spec fn g_bounded(s: Seq<Entry>, b: int) -> bool {
    forall|i: int| 0 <= i < s.len() ==> (#[trigger] s[i]).cost.g_cost <= b
}

/// All parent links point below `n` (into a closed list of length `n`).
pub open spec fn parents_lt(s: Seq<Entry>, n: int) -> bool {
    forall|i: int|
        0 <= i < s.len() ==> match (#[trigger] s[i]).node.parent {
            Some(p) => p < n,
            None => true,
        }
}

/// All parent links point at or below `n`; entries added while a node is
/// being closed may already name the slot that node is about to occupy.
pub open spec fn parents_le(s: Seq<Entry>, n: int) -> bool {
    forall|i: int|
        0 <= i < s.len() ==> match (#[trigger] s[i]).node.parent {
            Some(p) => p <= n,
            None => true,
        }
}

/// Every closed entry's parent was closed strictly earlier, so parent chains
/// only ever walk downwards and terminate.
pub open spec fn closed_parents_ok(s: Seq<Entry>) -> bool {
    forall|i: int|
        0 <= i < s.len() ==> match (#[trigger] s[i]).node.parent {
            Some(p) => p < i,
            None => true,
        }
}

/// All positions lie inside a `w` by `h` rectangle.
pub open spec fn in_grid(s: Seq<Entry>, w: int, h: int) -> bool {
    forall|i: int|
        0 <= i < s.len() ==> (#[trigger] s[i]).node.pos.x < w && s[i].node.pos.y < h
}

/// A sequence of entries with pairwise distinct positions inside a `w` by `h`
/// rectangle cannot hold more than `w * h` entries.
pub proof fn lemma_positions_capacity(s: Seq<Entry>, w: int, h: int)
    requires
        distinct_positions(s),
        in_grid(s, w, h),
        0 <= w,
        0 <= h,
    ensures
        s.len() <= w * h,
{
    let codes = Seq::new(s.len(), |i: int| s[i].node.pos.y * w + s[i].node.pos.x);
    assert forall|i: int| 0 <= i < codes.len() implies 0 <= #[trigger] codes[i] < w * h by {
        assert(0 <= s[i].node.pos.y * w + s[i].node.pos.x < w * h) by (nonlinear_arith)
            requires
                0 <= s[i].node.pos.x < w,
                0 <= s[i].node.pos.y < h,
        ;
    }
    assert forall|i: int, j: int| 0 <= i < j < codes.len() implies codes[i] != codes[j] by {
        assert(s[i].node.pos != s[j].node.pos);
        assert(s[i].node.pos.y * w + s[i].node.pos.x != s[j].node.pos.y * w + s[j].node.pos.x)
            by (nonlinear_arith)
            requires
                0 <= s[i].node.pos.x < w,
                0 <= s[j].node.pos.x < w,
                s[i].node.pos != s[j].node.pos,
                s[i].node.pos.x != s[j].node.pos.x || s[i].node.pos.y != s[j].node.pos.y,
        ;
    }
    assert(codes.no_duplicates()) by {
        assert forall|i: int, j: int|
            0 <= i < codes.len() && 0 <= j < codes.len() && i != j implies codes[i]
            != codes[j] by {
            if i < j {
                assert(codes[i] != codes[j]);
            } else {
                assert(codes[j] != codes[i]);
            }
        }
    }
    codes.unique_seq_to_set();
    assert(codes.to_set().subset_of(set_int_range(0, w * h))) by {
        assert forall|c: int| codes.to_set().contains(c) implies set_int_range(0, w * h).contains(
            c,
        ) by {
            let i = choose|i: int| 0 <= i < codes.len() && codes[i] == c;
        }
    }
    lemma_int_range(0, w * h);
    lemma_len_subset(codes.to_set(), set_int_range(0, w * h));
}

/// The scan order's winner among the first `n` entries: an entry displaces
/// the current winner only when it is strictly preferred.
pub open spec fn best_idx_upto(s: Seq<Entry>, n: int) -> int
    decreases n,
{
    if n <= 1 {
        0
    } else {
        let b = best_idx_upto(s, n - 1);
        if spec_prefer(s[n - 1].cost, s[b].cost) {
            n - 1
        } else {
            b
        }
    }
}

/// The index the open list's scan pops next: lowest f-cost, ties by lowest
/// h-cost, earliest entry among full ties.
pub open spec fn best_idx(s: Seq<Entry>) -> int {
    best_idx_upto(s, s.len() as int)
}

pub proof fn lemma_best_idx_upto_in_range(s: Seq<Entry>, n: int)
    requires
        1 <= n,
    ensures
        0 <= best_idx_upto(s, n) < n,
    decreases n,
{
    if n > 1 {
        lemma_best_idx_upto_in_range(s, n - 1);
    }
}

pub proof fn lemma_best_idx_in_range(s: Seq<Entry>)
    requires
        s.len() > 0,
    ensures
        0 <= best_idx(s) < s.len(),
{
    lemma_best_idx_upto_in_range(s, s.len() as int);
}

/// One directional search frontier: the open list of discovered,
/// not-yet-finalized nodes and the closed list of finalized nodes. The
/// closed list doubles as the arena parent links point into: a node's
/// parent index names the closed slot of the node it was reached from.
pub struct AStarData {
    pub open_list: Vec<Entry>,
    pub closed_list: Vec<Entry>,
}

impl AStarData {
    /// Structural soundness of a frontier: one open entry per position, open
    /// and closed disjoint, parent links well-founded, and every stored cost
    /// small enough that no cost computation can overflow.
    pub open spec fn wf(self) -> bool {
        &&& distinct_positions(self.open_list@)
        &&& distinct_positions(self.closed_list@)
        &&& disjoint_positions(self.open_list@, self.closed_list@)
        &&& pos_bounded(self.open_list@)
        &&& pos_bounded(self.closed_list@)
        &&& h_bounded(self.open_list@)
        &&& h_bounded(self.closed_list@)
        &&& g_bounded(self.open_list@, 14 * (self.closed_list@.len() + 1) as int)
        &&& g_bounded(self.closed_list@, 14 * self.closed_list@.len() as int)
        &&& parents_lt(self.open_list@, self.closed_list@.len() as int)
        &&& closed_parents_ok(self.closed_list@)
    }

    /// The single seed entry a frontier starts from: its origin, unparented,
    /// at zero accumulated cost.
    pub open spec fn spec_seeded(origin: Position, goal: Position) -> Seq<Entry> {
        seq![
            Entry {
                node: Node { pos: origin, parent: None },
                cost: Cost { g_cost: 0, h_cost: spec_h_cost(origin, goal) as usize },
            },
        ]
    }

    /// A fresh frontier seeded with `start`, estimating towards `target`.
    pub fn new(start: Position, target: Position) -> (r: Self)
        requires
            start.x < MAX_DIM,
            start.y < MAX_DIM,
            target.x < MAX_DIM,
            target.y < MAX_DIM,
        ensures
            r.wf(),
            r.open_list@ == Self::spec_seeded(start, target),
            r.closed_list@ == Seq::<Entry>::empty(),
    {
        let mut open_list: Vec<Entry> = Vec::new();
        let h = start.h_cost(&target);
        proof {
            assert(spec_h_cost(start, target) <= 2 * 4095 * 4095) by (nonlinear_arith)
                requires
                    start.x < 4096,
                    start.y < 4096,
                    target.x < 4096,
                    target.y < 4096,
            ;
        }
        open_list.push(Entry { node: Node::new_from_pos(start), cost: Cost { g_cost: 0, h_cost: h } });
        let r = Self { open_list, closed_list: Vec::new() };
        proof {
            assert(r.open_list@ =~= Self::spec_seeded(start, target));
            assert(r.closed_list@ =~= Seq::<Entry>::empty());
        }
        r
    }

    /// The open node the search would finalize next, if any; `None` means
    /// this frontier is exhausted.
    pub open spec fn spec_top(self) -> Option<Node> {
        if self.open_list@.len() == 0 {
            None
        } else {
            Some(self.open_list@[best_idx(self.open_list@)].node)
        }
    }

    /// The index of the best open entry.
    fn best_index(&self) -> (r: usize)
        requires
            self.wf(),
            self.open_list@.len() > 0,
        ensures
            r == best_idx(self.open_list@),
    {
        proof {
            lemma_positions_capacity(self.closed_list@, MAX_DIM as int, MAX_DIM as int);
        }
        let mut best: usize = 0;
        let mut i: usize = 1;
        while i < self.open_list.len()
            invariant
                self.wf(),
                self.open_list@.len() > 0,
                1 <= i <= self.open_list@.len(),
                best < i,
                best == best_idx_upto(self.open_list@, i as int),
                self.closed_list@.len() <= MAX_DIM * MAX_DIM,
            decreases self.open_list@.len() - i,
        {
            let cand = self.open_list[i].cost;
            let cur = self.open_list[best].cost;
            if prefer(&cand, &cur) {
                best = i;
            }
            i = i + 1;
        }
        best
    }

    /// A copy of the best open node, or `None` when the frontier is
    /// exhausted.
    pub fn top(&self) -> (r: Option<Node>)
        requires
            self.wf(),
        ensures
            r == self.spec_top(),
    {
        if self.open_list.len() == 0 {
            None
        } else {
            proof {
                lemma_best_idx_in_range(self.open_list@);
            }
            let b = self.best_index();
            Some(self.open_list[b].node)
        }
    }

    /// The open and closed position lists, in storage order, for progress
    /// display.
    pub fn get_lists(&self) -> (r: (Vec<Position>, Vec<Position>))
        ensures
            r.0@ == positions_of(self.open_list@),
            r.1@ == positions_of(self.closed_list@),
    {
        let mut o: Vec<Position> = Vec::new();
        let mut c: Vec<Position> = Vec::new();
        let mut i: usize = 0;
        while i < self.open_list.len()
            invariant
                i <= self.open_list@.len(),
                o@.len() == i,
                forall|k: int| 0 <= k < i ==> o@[k] == self.open_list@[k].node.pos,
            decreases self.open_list@.len() - i,
        {
            o.push(self.open_list[i].node.pos);
            i = i + 1;
        }
        let mut j: usize = 0;
        while j < self.closed_list.len()
            invariant
                j <= self.closed_list@.len(),
                c@.len() == j,
                forall|k: int| 0 <= k < j ==> c@[k] == self.closed_list@[k].node.pos,
            decreases self.closed_list@.len() - j,
        {
            c.push(self.closed_list[j].node.pos);
            j = j + 1;
        }
        proof {
            assert(o@ =~= positions_of(self.open_list@));
            assert(c@ =~= positions_of(self.closed_list@));
        }
        (o, c)
    }

    /// Empty both lists. The frontier is only usable again once re-seeded
    /// through `push_open`.
    pub fn clear(&mut self)
        ensures
            final(self).wf(),
            final(self).open_list@ == Seq::<Entry>::empty(),
            final(self).closed_list@ == Seq::<Entry>::empty(),
    {
        self.open_list.clear();
        self.closed_list.clear();
        proof {
            assert(self.open_list@ =~= Seq::<Entry>::empty());
            assert(self.closed_list@ =~= Seq::<Entry>::empty());
        }
    }

    /// Push a node into the open list. If an entry for the node's position
    /// already exists, only its cost is updated, mirroring a priority
    /// update; otherwise the pair is appended.
    pub fn push_node_open(&mut self, node: Node, cost: Cost)
        requires
            old(self).wf(),
            node.pos.x < MAX_DIM,
            node.pos.y < MAX_DIM,
            match node.parent {
                Some(p) => p < old(self).closed_list@.len(),
                None => true,
            },
            cost.g_cost <= 14 * (old(self).closed_list@.len() + 1),
            cost.h_cost <= H_LIMIT,
            !has_pos(old(self).closed_list@, node.pos),
        ensures
            final(self).wf(),
            final(self).closed_list@ == old(self).closed_list@,
            final(self).open_list@ == (if has_pos(old(self).open_list@, node.pos) {
                old(self).open_list@.update(
                    pos_idx(old(self).open_list@, node.pos),
                    Entry {
                        node: old(self).open_list@[pos_idx(old(self).open_list@, node.pos)].node,
                        cost,
                    },
                )
            } else {
                old(self).open_list@.push(Entry { node, cost })
            }),
    {
        let mut i: usize = 0;
        while i < self.open_list.len()
            invariant
                self == old(self),
                old(self).wf(),
                node.pos.x < MAX_DIM,
                node.pos.y < MAX_DIM,
                match node.parent {
                    Some(p) => p < old(self).closed_list@.len(),
                    None => true,
                },
                cost.g_cost <= 14 * (old(self).closed_list@.len() + 1) as int,
                cost.h_cost <= H_LIMIT,
                !has_pos(old(self).closed_list@, node.pos),
                i <= self.open_list@.len(),
                forall|k: int| 0 <= k < i ==> self.open_list@[k].node.pos != node.pos,
            decreases self.open_list@.len() - i,
        {
            if self.open_list[i].node.pos == node.pos {
                let kept = self.open_list[i].node;
                self.open_list.set(i, Entry { node: kept, cost });
                proof {
                    lemma_pos_idx_at(old(self).open_list@, i as int);
                }
                return ;
            }
            i = i + 1;
        }
        proof {
            assert(!has_pos(old(self).open_list@, node.pos));
        }
        self.open_list.push(Entry { node, cost });
    }

    /// Seed the open list with an origin at zero accumulated cost.
    pub fn push_open(&mut self, start: Position, h_cost: usize)
        requires
            old(self).wf(),
            start.x < MAX_DIM,
            start.y < MAX_DIM,
            h_cost <= H_LIMIT,
            !has_pos(old(self).closed_list@, start),
        ensures
            final(self).wf(),
            final(self).closed_list@ == old(self).closed_list@,
            final(self).open_list@ == (if has_pos(old(self).open_list@, start) {
                old(self).open_list@.update(
                    pos_idx(old(self).open_list@, start),
                    Entry {
                        node: old(self).open_list@[pos_idx(old(self).open_list@, start)].node,
                        cost: Cost { g_cost: 0, h_cost },
                    },
                )
            } else {
                old(self).open_list@.push(
                    Entry { node: Node { pos: start, parent: None }, cost: Cost { g_cost: 0, h_cost } },
                )
            }),
    {
        self.push_node_open(Node::new_from_pos(start), Cost { g_cost: 0, h_cost });
    }

    /// Whether this frontier has already finalized the node's position.
    pub fn in_closed(&self, node: &Node) -> (r: bool)
        ensures
            r == has_pos(self.closed_list@, node.pos),
    {
        let mut i: usize = 0;
        while i < self.closed_list.len()
            invariant
                i <= self.closed_list@.len(),
                forall|k: int| 0 <= k < i ==> self.closed_list@[k].node.pos != node.pos,
            decreases self.closed_list@.len() - i,
        {
            if self.closed_list[i].node.pos == node.pos {
                return true;
            }
            i = i + 1;
        }
        false
    }
}

/// The effect of trying one direction during an expansion of `cur`: the open
/// list after the candidate neighbour has been rejected, relaxed in place,
/// or inserted. A newly parented entry points at the closed slot `cur` is
/// about to occupy, `closed.len()`.
pub open spec fn spec_find_in_dir(
    open_l: Seq<Entry>,
    closed_l: Seq<Entry>,
    cur: Entry,
    gm: GridModel,
    target: Position,
    d: Direction,
) -> Seq<Entry> {
    let nx = cur.node.pos.x + d.spec_offset().0;
    let ny = cur.node.pos.y + d.spec_offset().1;
    if !gm.free_at(nx, ny) {
        open_l
    } else {
        let np = Position { x: nx as usize, y: ny as usize };
        if has_pos(closed_l, np) {
            open_l
        } else {
            let ng = cur.cost.g_cost + d.spec_g_cost();
            let ncost = Cost { g_cost: ng as usize, h_cost: spec_h_cost(np, target) as usize };
            let nnode = Node { pos: np, parent: Some(closed_l.len() as usize) };
            if has_pos(open_l, np) {
                let j = pos_idx(open_l, np);
                if ng < open_l[j].cost.g_cost {
                    open_l.update(j, Entry { node: nnode, cost: ncost })
                } else {
                    open_l
                }
            } else {
                open_l.push(Entry { node: nnode, cost: ncost })
            }
        }
    }
}

/// The open list after `cur` has been expanded through every direction of
/// `dirs`, in order.
pub open spec fn spec_expand_dirs(
    open_l: Seq<Entry>,
    closed_l: Seq<Entry>,
    cur: Entry,
    gm: GridModel,
    target: Position,
    dirs: Seq<Direction>,
) -> Seq<Entry>
    decreases dirs.len(),
{
    if dirs.len() == 0 {
        open_l
    } else {
        spec_expand_dirs(
            spec_find_in_dir(open_l, closed_l, cur, gm, target, dirs[0]),
            closed_l,
            cur,
            gm,
            target,
            dirs.drop_first(),
        )
    }
}

/// One whole expansion step of a frontier: the best open entry is popped,
/// every permitted direction is tried against the grid, and the popped entry
/// is finalized at the end of the closed list.
pub open spec fn spec_find(
    open_l: Seq<Entry>,
    closed_l: Seq<Entry>,
    gm: GridModel,
    target: Position,
    diagonal: bool,
) -> (Seq<Entry>, Seq<Entry>) {
    let b = best_idx(open_l);
    let cur = open_l[b];
    let rest = open_l.remove(b);
    (
        spec_expand_dirs(rest, closed_l, cur, gm, target, spec_directions(diagonal)),
        closed_l.push(cur),
    )
}

impl AStarData {
    /// The frontier's invariant in the middle of an expansion step, while
    /// the node being expanded is out of both lists: entries relaxed or
    /// inserted so far may already point at the closed slot it will occupy,
    /// and may carry one step's worth of extra cost.
    pub open spec fn exp_wf(self) -> bool {
        &&& distinct_positions(self.open_list@)
        &&& distinct_positions(self.closed_list@)
        &&& disjoint_positions(self.open_list@, self.closed_list@)
        &&& pos_bounded(self.open_list@)
        &&& pos_bounded(self.closed_list@)
        &&& h_bounded(self.open_list@)
        &&& h_bounded(self.closed_list@)
        &&& g_bounded(self.open_list@, 14 * (self.closed_list@.len() + 2) as int)
        &&& g_bounded(self.closed_list@, 14 * self.closed_list@.len() as int)
        &&& parents_le(self.open_list@, self.closed_list@.len() as int)
        &&& closed_parents_ok(self.closed_list@)
    }

    /// The candidate neighbour of `current` one step in `dir`, with its
    /// cost: one more step of accumulated cost, and the heuristic estimate
    /// from the neighbour to `target`.
    pub fn get_neighbour(
        grid_type: GridType<'_>,
        current: (&Node, Cost),
        dir: Direction,
        target: &Position,
    ) -> (r: Result<(Node, Cost), NeighbourError>)
        requires
            grid_type.wf(),
            current.0.pos.x < MAX_DIM,
            current.0.pos.y < MAX_DIM,
            target.x < MAX_DIM,
            target.y < MAX_DIM,
            current.1.g_cost + 14 <= usize::MAX,
        ensures
            ({
                let nx = current.0.pos.x + dir.spec_offset().0;
                let ny = current.0.pos.y + dir.spec_offset().1;
                let np = Position { x: nx as usize, y: ny as usize };
                &&& grid_type.gm().free_at(nx, ny) ==> r == Ok::<(Node, Cost), NeighbourError>(
                    (
                        Node { pos: np, parent: None },
                        Cost {
                            g_cost: (current.1.g_cost + dir.spec_g_cost()) as usize,
                            h_cost: spec_h_cost(np, *target) as usize,
                        },
                    ),
                )
                &&& !grid_type.gm().in_bounds(nx, ny) ==> r == Err::<(Node, Cost), NeighbourError>(
                    NeighbourError::OutOfBounds,
                )
                &&& grid_type.gm().in_bounds(nx, ny) && !grid_type.gm().free_at(nx, ny) ==> r
                    == Err::<(Node, Cost), NeighbourError>(NeighbourError::Blocked)
            }),
    {
        let neighbour_node = match current.0.get_neighbour(dir, grid_type) {
            Ok(n) => n,
            Err(e) => {
                return Err(e);
            },
        };
        let cost = current.1.g_cost + dir.g_cost();
        proof {
            assert(spec_h_cost(neighbour_node.pos, *target) <= 2 * 4095 * 4095)
                by (nonlinear_arith)
                requires
                    neighbour_node.pos.x < 4096,
                    neighbour_node.pos.y < 4096,
                    target.x < 4096,
                    target.y < 4096,
            ;
        }
        let h_cost = neighbour_node.pos.h_cost(target);
        Ok((neighbour_node, Cost { g_cost: cost, h_cost }))
    }

    /// Try one direction while expanding `current`: reject, relax in place,
    /// or insert the candidate neighbour, exactly as `spec_find_in_dir`
    /// describes.
    pub fn find_in_dir(
        &mut self,
        target: &Position,
        current: (&Node, Cost),
        grid_type: GridType<'_>,
        dir: Direction,
    )
        requires
            old(self).exp_wf(),
            grid_type.wf(),
            target.x < MAX_DIM,
            target.y < MAX_DIM,
            current.0.pos.x < MAX_DIM,
            current.0.pos.y < MAX_DIM,
            current.1.g_cost <= 14 * (old(self).closed_list@.len() + 1) as int,
        ensures
            final(self).exp_wf(),
            final(self).closed_list@ == old(self).closed_list@,
            final(self).open_list@ == spec_find_in_dir(
                old(self).open_list@,
                old(self).closed_list@,
                Entry { node: *current.0, cost: current.1 },
                grid_type.gm(),
                *target,
                dir,
            ),
            forall|p: Position|
                has_pos(final(self).open_list@, p) ==> has_pos(old(self).open_list@, p) || (
                p.x == current.0.pos.x + dir.spec_offset().0 && p.y == current.0.pos.y
                    + dir.spec_offset().1),
            forall|p: Position|
                has_pos(final(self).open_list@, p) ==> has_pos(old(self).open_list@, p)
                    || grid_type.gm().free_at(p.x as int, p.y as int),
    {
        proof {
            lemma_positions_capacity(self.closed_list@, MAX_DIM as int, MAX_DIM as int);
        }
        let result = Self::get_neighbour(grid_type, current, dir, target);
        let ghost gm = grid_type.gm();
        let ghost nxi = current.0.pos.x + dir.spec_offset().0;
        let ghost nyi = current.0.pos.y + dir.spec_offset().1;
        if let Ok((neighbour, neighbour_cost)) = result {
            proof {
                assert(gm.free_at(nxi, nyi));
                assert(neighbour.pos == Position { x: nxi as usize, y: nyi as usize });
                assert(0 <= spec_h_cost(neighbour.pos, *target) <= 2 * 4095 * 4095)
                    by (nonlinear_arith)
                    requires
                        neighbour.pos.x < 4096,
                        neighbour.pos.y < 4096,
                        target.x < 4096,
                        target.y < 4096,
                ;
                assert(neighbour_cost.h_cost <= H_LIMIT);
                assert(neighbour_cost.g_cost == current.1.g_cost + dir.spec_g_cost());
                assert(neighbour_cost.g_cost <= 14 * (self.closed_list@.len() + 2) as int);
            }
            if !self.in_closed(&neighbour) {
                let parent_idx = self.closed_list.len();
                let nnode = Node { pos: neighbour.pos, parent: Some(parent_idx) };
                match self.open_index_of(&neighbour.pos) {
                    Some(i) => {
                        proof {
                            lemma_pos_idx_at(self.open_list@, i as int);
                        }
                        if neighbour_cost.g_cost < self.open_list[i].cost.g_cost {
                            self.open_list.set(i, Entry { node: nnode, cost: neighbour_cost });
                        }
                    },
                    None => {
                        self.open_list.push(Entry { node: nnode, cost: neighbour_cost });
                    },
                }
            }
        }
    }

    /// The index of the first open entry at `pos`, if any.
    fn open_index_of(&self, pos: &Position) -> (r: Option<usize>)
        ensures
            match r {
                Some(i) => i < self.open_list@.len() && self.open_list@[i as int].node.pos
                    == *pos,
                None => !has_pos(self.open_list@, *pos),
            },
    {
        let mut i: usize = 0;
        while i < self.open_list.len()
            invariant
                i <= self.open_list@.len(),
                forall|k: int| 0 <= k < i ==> self.open_list@[k].node.pos != *pos,
            decreases self.open_list@.len() - i,
        {
            if self.open_list[i].node.pos == *pos {
                return Some(i);
            }
            i = i + 1;
        }
        None
    }

    /// One expansion step: pop the best open node, try every permitted
    /// direction against the grid, and finalize the popped node.
    pub fn find(&mut self, grid_type: GridType<'_>, target: &Position, diagonal: bool)
        requires
            old(self).wf(),
            old(self).open_list@.len() > 0,
            grid_type.wf(),
            target.x < MAX_DIM,
            target.y < MAX_DIM,
        ensures
            final(self).wf(),
            final(self).open_list@ == spec_find(
                old(self).open_list@,
                old(self).closed_list@,
                grid_type.gm(),
                *target,
                diagonal,
            ).0,
            final(self).closed_list@ == spec_find(
                old(self).open_list@,
                old(self).closed_list@,
                grid_type.gm(),
                *target,
                diagonal,
            ).1,
            final(self).closed_list@ == old(self).closed_list@.push(
                old(self).open_list@[best_idx(old(self).open_list@)],
            ),
            forall|p: Position|
                has_pos(final(self).open_list@, p) ==> has_pos(old(self).open_list@, p)
                    || grid_type.gm().free_at(p.x as int, p.y as int),
            in_grid(old(self).open_list@, grid_type.gm().width, grid_type.gm().height) && in_grid(
                old(self).closed_list@,
                grid_type.gm().width,
                grid_type.gm().height,
            ) ==> in_grid(final(self).open_list@, grid_type.gm().width, grid_type.gm().height)
                && in_grid(final(self).closed_list@, grid_type.gm().width, grid_type.gm().height),
    {
        proof {
            lemma_best_idx_in_range(self.open_list@);
        }
        let b = self.best_index();
        let current = self.open_list.remove(b);
        let ghost rest0 = self.open_list@;
        proof {
            old(self).open_list@.remove_ensures(b as int);
            assert forall|i: int, j: int| 0 <= i < j < rest0.len() implies (
            #[trigger] rest0[i]).node.pos != (#[trigger] rest0[j]).node.pos by {
                let oi = if i < b as int { i } else { i + 1 };
                let oj = if j < b as int { j } else { j + 1 };
                assert(rest0[i] == old(self).open_list@[oi]);
                assert(rest0[j] == old(self).open_list@[oj]);
                assert(old(self).open_list@[oi].node.pos != old(self).open_list@[oj].node.pos);
            }
            assert forall|i: int| 0 <= i < rest0.len() implies exists|oi: int|
                0 <= oi < old(self).open_list@.len() && #[trigger] rest0[i] == old(self).open_list@[oi] by {
                let oi = if i < b as int { i } else { i + 1 };
                assert(rest0[i] == old(self).open_list@[oi]);
            }
            assert forall|i: int| 0 <= i < rest0.len() implies rest0[i].node.pos
                != current.node.pos by {
                let oi = if i < b as int { i } else { i + 1 };
                assert(rest0[i] == old(self).open_list@[oi]);
                assert(old(self).open_list@[oi].node.pos != old(self).open_list@[b as int].node.pos);
            }
            assert(!has_pos(rest0, current.node.pos));
            assert forall|p: Position| has_pos(rest0, p) implies has_pos(
                old(self).open_list@,
                p,
            ) by {
                let i = choose|i: int| 0 <= i < rest0.len() && rest0[i].node.pos == p;
                let oi = if i < b as int {
                    i
                } else {
                    i + 1
                };
                assert(rest0[i] == old(self).open_list@[oi]);
            }
            assert(self.exp_wf());
        }
        let dirs = directions(diagonal);
        let ghost closed0 = self.closed_list@;
        let ghost gm = grid_type.gm();
        proof {
            assert(dirs@.skip(0) =~= dirs@);
        }
        let mut k: usize = 0;
        while k < dirs.len()
            invariant
                self.exp_wf(),
                self.closed_list@ == closed0,
                grid_type.wf(),
                gm == grid_type.gm(),
                target.x < MAX_DIM,
                target.y < MAX_DIM,
                current.node.pos.x < MAX_DIM,
                current.node.pos.y < MAX_DIM,
                current.cost.g_cost <= 14 * (closed0.len() + 1) as int,
                dirs@ == spec_directions(diagonal),
                k <= dirs@.len(),
                !has_pos(self.open_list@, current.node.pos),
                forall|p: Position|
                    has_pos(self.open_list@, p) ==> has_pos(rest0, p) || gm.free_at(
                        p.x as int,
                        p.y as int,
                    ),
                forall|p: Position| has_pos(rest0, p) ==> has_pos(old(self).open_list@, p),
                spec_expand_dirs(self.open_list@, closed0, current, gm, *target, dirs@.skip(k as int))
                    == spec_expand_dirs(rest0, closed0, current, gm, *target, dirs@),
            decreases dirs@.len() - k,
        {
            let d = dirs[k];
            let ghost pre_open = self.open_list@;
            self.find_in_dir(target, (&current.node, current.cost), grid_type, d);
            proof {
                assert(dirs@.skip(k as int).drop_first() =~= dirs@.skip(k as int + 1));
                assert(dirs@.skip(k as int)[0] == d);
                assert(spec_expand_dirs(pre_open, closed0, current, gm, *target, dirs@.skip(k as int))
                    == spec_expand_dirs(self.open_list@, closed0, current, gm, *target, dirs@.skip(k as int + 1)));
                assert forall|p: Position| has_pos(self.open_list@, p) && p
                    == current.node.pos implies false by {
                    if !has_pos(pre_open, p) {
                        assert(p.x == current.node.pos.x + d.spec_offset().0 && p.y
                            == current.node.pos.y + d.spec_offset().1);
                        assert(d.spec_offset().0 != 0 || d.spec_offset().1 != 0);
                    }
                }
            }
            k = k + 1;
        }
        proof {
            assert(dirs@.skip(dirs@.len() as int) =~= Seq::<Direction>::empty());
        }
        self.closed_list.push(current);
        proof {
            assert forall|p: Position| has_pos(self.open_list@, p) implies has_pos(
                old(self).open_list@,
                p,
            ) || grid_type.gm().free_at(p.x as int, p.y as int) by {
                assert(has_pos(rest0, p) || gm.free_at(p.x as int, p.y as int));
                if has_pos(rest0, p) {
                    assert(has_pos(old(self).open_list@, p));
                }
            }
            let gw = grid_type.gm().width;
            let gh = grid_type.gm().height;
            if in_grid(old(self).open_list@, gw, gh) && in_grid(old(self).closed_list@, gw, gh) {
                assert forall|i: int| 0 <= i < self.open_list@.len() implies (
                #[trigger] self.open_list@[i]).node.pos.x < gw && self.open_list@[i].node.pos.y
                    < gh by {
                    let p = self.open_list@[i].node.pos;
                    assert(has_pos(self.open_list@, p));
                    if has_pos(old(self).open_list@, p) {
                        let j = choose|j: int|
                            0 <= j < old(self).open_list@.len() && old(self).open_list@[j].node.pos
                                == p;
                        assert(old(self).open_list@[j].node.pos.x < gw);
                    } else {
                        assert(grid_type.gm().free_at(p.x as int, p.y as int));
                    }
                }
                assert(in_grid(self.open_list@, gw, gh));
                assert(in_grid(self.closed_list@, gw, gh)) by {
                    assert(0 <= best_idx(old(self).open_list@) < old(self).open_list@.len());
                }
            }
            assert(current == old(self).open_list@[best_idx(old(self).open_list@)]);
            assert(self.closed_list@ == closed0.push(current));
            assert(self.wf()) by {
                assert(distinct_positions(self.closed_list@)) by {
                    assert(forall|i: int|
                        0 <= i < closed0.len() ==> (#[trigger] closed0[i]).node.pos
                            != current.node.pos);
                }
                assert(g_bounded(self.open_list@, 14 * (self.closed_list@.len() + 1) as int));
                assert(g_bounded(self.closed_list@, 14 * self.closed_list@.len() as int));
                assert(parents_lt(self.open_list@, self.closed_list@.len() as int));
                assert(closed_parents_ok(self.closed_list@));
            }
        }
    }
}


/// The positions a parent walk collects from closed slot `i` down to the
/// frontier's origin: each visited node's position, skipping the two global
/// endpoints, until a node without a parent is reached. The origin itself is
/// never collected, since it has no parent.
pub open spec fn chain_from(closed_l: Seq<Entry>, i: int, start: Position, target: Position) -> Seq<
    Position,
>
    decreases i,
{
    if 0 <= i < closed_l.len() {
        let e = closed_l[i];
        match e.node.parent {
            None => Seq::<Position>::empty(),
            Some(p) => {
                let head = if e.node.pos != start && e.node.pos != target {
                    seq![e.node.pos]
                } else {
                    Seq::<Position>::empty()
                };
                if (p as int) < i {
                    head + chain_from(closed_l, p as int, start, target)
                } else {
                    head
                }
            },
        }
    } else {
        Seq::<Position>::empty()
    }
}

/// The parent walk started from an arbitrary node whose parent link points
/// into `closed_l`.
pub open spec fn walk_node(closed_l: Seq<Entry>, n: Node, start: Position, target: Position) -> Seq<
    Position,
> {
    match n.parent {
        None => Seq::<Position>::empty(),
        Some(p) => {
            let head = if n.pos != start && n.pos != target {
                seq![n.pos]
            } else {
                Seq::<Position>::empty()
            };
            if (p as int) < closed_l.len() {
                head + chain_from(closed_l, p as int, start, target)
            } else {
                head
            }
        },
    }
}

impl AStarData {
    /// Whether this frontier has met its goal: its best open node sits on
    /// `target`, or, when `other_closed` is the opposing frontier's closed
    /// list, that frontier has already finalized the node's position.
    pub open spec fn spec_solved_with(
        self,
        target: Position,
        other_closed: Option<Seq<Entry>>,
    ) -> Option<Node> {
        match self.spec_top() {
            Some(top) => if top.pos == target || (match other_closed {
                Some(c) => has_pos(c, top.pos),
                None => false,
            }) {
                Some(top)
            } else {
                None
            },
            None => None,
        }
    }

    /// The shared node, if this frontier's best open node reaches `target`
    /// or is already closed in `another` frontier.
    pub fn solved(&self, target: Position, another: Option<&Self>) -> (r: Option<Node>)
        requires
            self.wf(),
        ensures
            r == self.spec_solved_with(
                target,
                match another {
                    Some(a) => Some(a.closed_list@),
                    None => None::<Seq<Entry>>,
                },
            ),
    {
        if let Some(top) = self.top() {
            let mut solved = target == top.pos;
            if let Some(another) = another {
                solved = solved || another.in_closed(&top);
            }
            if solved {
                return Some(top);
            }
        }
        None
    }

    /// The index of the first closed entry at `pos`, if any.
    fn closed_index_of(&self, pos: &Position) -> (r: Option<usize>)
        ensures
            match r {
                Some(i) => i < self.closed_list@.len() && self.closed_list@[i as int].node.pos
                    == *pos,
                None => !has_pos(self.closed_list@, *pos),
            },
    {
        let mut i: usize = 0;
        while i < self.closed_list.len()
            invariant
                i <= self.closed_list@.len(),
                forall|k: int| 0 <= k < i ==> self.closed_list@[k].node.pos != *pos,
            decreases self.closed_list@.len() - i,
        {
            if self.closed_list[i].node.pos == *pos {
                return Some(i);
            }
            i = i + 1;
        }
        None
    }

    /// What `trace` returns: the parent walk from the closed entry at the
    /// meeting position, or nothing when this frontier never finalized it.
    pub open spec fn spec_trace(self, n: Node, start: Position, target: Position) -> Seq<
        Position,
    > {
        if has_pos(self.closed_list@, n.pos) {
            chain_from(self.closed_list@, pos_idx(self.closed_list@, n.pos), start, target)
        } else {
            Seq::<Position>::empty()
        }
    }

    /// This frontier's side of the final path: locate the closed entry at
    /// the meeting node's position and walk its parent chain, excluding the
    /// two global endpoints.
    pub fn trace(&self, common_node: &Node, end_points: (Position, Position)) -> (path: Vec<
        Position,
    >)
        requires
            self.wf(),
        ensures
            path@ == self.spec_trace(*common_node, end_points.0, end_points.1),
    {
        let (start, target) = end_points;
        let mut path: Vec<Position> = Vec::new();
        let found = self.closed_index_of(&common_node.pos);
        if let Some(i0) = found {
            proof {
                lemma_pos_idx_at(self.closed_list@, i0 as int);
            }
            self.push_chain(i0, start, target, &mut path);
            proof {
                assert(Seq::<Position>::empty() + chain_from(
                    self.closed_list@,
                    i0 as int,
                    start,
                    target,
                ) =~= chain_from(self.closed_list@, i0 as int, start, target));
            }
        }
        path
    }

    /// Append to `path` the parent walk that starts at closed slot `from`.
    fn push_chain(&self, from: usize, start: Position, target: Position, path: &mut Vec<Position>)
        requires
            self.wf(),
            from < self.closed_list@.len(),
        ensures
            final(path)@ == old(path)@ + chain_from(self.closed_list@, from as int, start, target),
    {
        let mut j: usize = from;
        while self.closed_list[j].node.parent.is_some()
            invariant
                self.wf(),
                j < self.closed_list@.len(),
                from < self.closed_list@.len(),
                path@ + chain_from(self.closed_list@, j as int, start, target) == old(path)@
                    + chain_from(self.closed_list@, from as int, start, target),
            decreases j,
        {
            let e = self.closed_list[j];
            if let Some(p) = e.node.parent {
                let ghost head = if e.node.pos != start && e.node.pos != target {
                    seq![e.node.pos]
                } else {
                    Seq::<Position>::empty()
                };
                proof {
                    assert((p as int) < j as int);
                    assert(chain_from(self.closed_list@, j as int, start, target) == head
                        + chain_from(self.closed_list@, p as int, start, target));
                    assert((path@ + head) + chain_from(self.closed_list@, p as int, start, target)
                        =~= path@ + (head + chain_from(
                        self.closed_list@,
                        p as int,
                        start,
                        target,
                    )));
                }
                if e.node.pos != start && e.node.pos != target {
                    path.push(e.node.pos);
                }
                j = p;
            }
        }
        proof {
            assert(chain_from(self.closed_list@, j as int, start, target)
                =~= Seq::<Position>::empty());
            assert(path@ + Seq::<Position>::empty() =~= path@);
        }
    }

    /// The parent walk started from an arbitrary node of this frontier,
    /// typically its best open node.
    pub fn walk(&self, n: &Node, end_points: (Position, Position)) -> (path: Vec<Position>)
        requires
            self.wf(),
            match n.parent {
                Some(p) => p < self.closed_list@.len(),
                None => true,
            },
        ensures
            path@ == walk_node(self.closed_list@, *n, end_points.0, end_points.1),
    {
        let (start, target) = end_points;
        let mut path: Vec<Position> = Vec::new();
        if let Some(p) = n.parent {
            let ghost head = if n.pos != start && n.pos != target {
                seq![n.pos]
            } else {
                Seq::<Position>::empty()
            };
            if n.pos != start && n.pos != target {
                path.push(n.pos);
            }
            proof {
                assert(path@ =~= head);
            }
            self.push_chain(p, start, target, &mut path);
        }
        path
    }
}

/// The search's configuration: endpoints and the three mode flags.
#[derive(Clone, Copy, PartialEq, Eq, Structural, Debug)]
pub struct AStarConfig {
    pub start: Position,
    pub target: Position,
    pub diagonal: bool,
    pub multithreaded: bool,
    pub bidirectional: bool,
}

impl Default for AStarConfig {
    /// Diagonal movement on, both endpoints at the origin, single search
    /// direction on one thread.
    fn default() -> (r: Self)
        ensures
            r.diagonal == true,
            r.start == (Position { x: 0, y: 0 }),
            r.target == (Position { x: 0, y: 0 }),
            r.multithreaded == false,
            r.bidirectional == false,
    {
        Self {
            diagonal: true,
            start: Position::new(0, 0),
            target: Position::new(0, 0),
            multithreaded: false,
            bidirectional: false,
        }
    }
}

/// The failure a search reports when its recorded state names positions
/// outside the grid it was asked to run on.
#[derive(Clone, Copy, PartialEq, Eq, Structural, Debug)]
pub enum SearchError {
    OutOfBounds,
}

/// The mathematical content of one frontier.
pub ghost struct DataView {
    pub open_list: Seq<Entry>,
    pub closed_list: Seq<Entry>,
}

/// The mathematical content of a whole bidirectional search. The recorded
/// multithreading flag is deliberately absent: it does not influence what
/// the search computes.
pub ghost struct SearchView {
    pub start: Position,
    pub start_data: DataView,
    pub target: Position,
    pub target_data: Option<DataView>,
    pub common_node: Option<Node>,
    pub common_from_backward: bool,
    pub diagonal: bool,
}

/// The best open node of a frontier view.
pub open spec fn dv_top(dv: DataView) -> Option<Node> {
    if dv.open_list.len() == 0 {
        None
    } else {
        Some(dv.open_list[best_idx(dv.open_list)].node)
    }
}

/// Goal detection for a frontier view, as in `AStarData::spec_solved_with`.
pub open spec fn dv_solved_with(
    dv: DataView,
    target: Position,
    other_closed: Option<Seq<Entry>>,
) -> Option<Node> {
    match dv_top(dv) {
        Some(top) => if top.pos == target || (match other_closed {
            Some(c) => has_pos(c, top.pos),
            None => false,
        }) {
            Some(top)
        } else {
            None
        },
        None => None,
    }
}

/// One expansion step of a frontier view.
pub open spec fn dv_find(dv: DataView, gm: GridModel, target: Position, diagonal: bool) -> DataView {
    DataView {
        open_list: spec_find(dv.open_list, dv.closed_list, gm, target, diagonal).0,
        closed_list: spec_find(dv.open_list, dv.closed_list, gm, target, diagonal).1,
    }
}

/// Both frontiers' goal detections: what the forward frontier reports
/// against the target (or the backward frontier's closed set), and what the
/// backward frontier, when present, reports against the start.
pub open spec fn sv_hits(sv: SearchView) -> (Option<Node>, Option<Node>) {
    (
        dv_solved_with(
            sv.start_data,
            sv.target,
            match sv.target_data {
                Some(td) => Some(td.closed_list),
                None => None,
            },
        ),
        match sv.target_data {
            Some(td) => dv_solved_with(td, sv.start, Some(sv.start_data.closed_list)),
            None => None,
        },
    )
}

pub open spec fn sv_is_hit(sv: SearchView) -> bool {
    sv_hits(sv).0 is Some || sv_hits(sv).1 is Some
}

/// The state after the termination check has recorded its finding: the last
/// detection to fire wins the shared node, and the frontiers are untouched.
pub open spec fn sv_after_solved(sv: SearchView) -> SearchView {
    let hits = sv_hits(sv);
    match hits.1 {
        Some(n) => SearchView { common_node: Some(n), common_from_backward: true, ..sv },
        None => match hits.0 {
            Some(n) => SearchView { common_node: Some(n), common_from_backward: false, ..sv },
            None => sv,
        },
    }
}

/// The state after one advance: each present, non-exhausted frontier takes
/// one expansion step.
pub open spec fn sv_expand(sv: SearchView, gm: GridModel) -> SearchView {
    SearchView {
        start_data: if sv.start_data.open_list.len() > 0 {
            dv_find(sv.start_data, gm, sv.target, sv.diagonal)
        } else {
            sv.start_data
        },
        target_data: match sv.target_data {
            Some(t) => Some(
                if t.open_list.len() > 0 {
                    dv_find(t, gm, sv.start, sv.diagonal)
                } else {
                    t
                },
            ),
            None => None,
        },
        ..sv
    }
}

/// One advance of the whole search: record a detection if one fires, else
/// expand.
pub open spec fn sv_find(sv: SearchView, gm: GridModel) -> SearchView {
    if sv_is_hit(sv) {
        sv_after_solved(sv)
    } else {
        sv_expand(sv, gm)
    }
}

/// The state a fresh search starts in for a given configuration.
pub open spec fn sv_new(config: AStarConfig) -> SearchView {
    SearchView {
        start: config.start,
        start_data: DataView {
            open_list: AStarData::spec_seeded(config.start, config.target),
            closed_list: Seq::<Entry>::empty(),
        },
        target: config.target,
        target_data: if config.bidirectional {
            Some(
                DataView {
                    open_list: AStarData::spec_seeded(config.target, config.start),
                    closed_list: Seq::<Entry>::empty(),
                },
            )
        } else {
            None
        },
        common_node: None,
        common_from_backward: false,
        diagonal: config.diagonal,
    }
}

/// The bidirectional coordinator: a forward frontier from the start, an
/// optional backward frontier from the target, and, once a detection has
/// fired, the shared meeting node together with which side found it.
pub struct AStarBidirectional {
    pub start: Position,
    pub start_data: AStarData,
    pub target: Position,
    pub target_data: Option<AStarData>,
    pub common_node: Option<Node>,
    pub common_from_backward: bool,
    pub multithreaded: bool,
    pub diagonal: bool,
}

impl AStarBidirectional {
    pub open spec fn wf(self) -> bool {
        &&& self.start_data.wf()
        &&& match self.target_data {
            Some(td) => td.wf(),
            None => true,
        }
        &&& self.start.x < MAX_DIM && self.start.y < MAX_DIM
        &&& self.target.x < MAX_DIM && self.target.y < MAX_DIM
        &&& match self.common_node {
            Some(n) => {
                &&& (self.common_from_backward ==> self.target_data is Some)
                &&& match n.parent {
                    Some(p) => if self.common_from_backward {
                        p < self.target_data.unwrap().closed_list@.len()
                    } else {
                        p < self.start_data.closed_list@.len()
                    },
                    None => true,
                }
            },
            None => true,
        }
    }

    /// The mathematical content of the search.
    pub open spec fn v(self) -> SearchView {
        SearchView {
            start: self.start,
            start_data: DataView {
                open_list: self.start_data.open_list@,
                closed_list: self.start_data.closed_list@,
            },
            target: self.target,
            target_data: match self.target_data {
                Some(d) => Some(
                    DataView { open_list: d.open_list@, closed_list: d.closed_list@ },
                ),
                None => None,
            },
            common_node: self.common_node,
            common_from_backward: self.common_from_backward,
            diagonal: self.diagonal,
        }
    }

    /// A fresh search: the forward frontier seeded from the configured
    /// start, and, in bidirectional mode, a backward frontier seeded from
    /// the target.
    pub fn new(config: AStarConfig) -> (r: Self)
        requires
            config.start.x < MAX_DIM,
            config.start.y < MAX_DIM,
            config.target.x < MAX_DIM,
            config.target.y < MAX_DIM,
        ensures
            r.wf(),
            r.start == config.start,
            r.target == config.target,
            r.diagonal == config.diagonal,
            r.multithreaded == config.multithreaded,
            r.common_node is None,
            r.common_from_backward == false,
            r.start_data.open_list@ == AStarData::spec_seeded(config.start, config.target),
            r.start_data.closed_list@ == Seq::<Entry>::empty(),
            config.bidirectional <==> r.target_data is Some,
            config.bidirectional ==> r.target_data.unwrap().open_list@ == AStarData::spec_seeded(
                config.target,
                config.start,
            ) && r.target_data.unwrap().closed_list@ == Seq::<Entry>::empty(),
            r.v() == sv_new(config),
    {
        let start_data = AStarData::new(config.start, config.target);
        let target_data = if config.bidirectional {
            Some(AStarData::new(config.target, config.start))
        } else {
            None
        };
        Self {
            start: config.start,
            start_data,
            target: config.target,
            target_data,
            common_node: None,
            common_from_backward: false,
            multithreaded: config.multithreaded,
            diagonal: config.diagonal,
        }
    }

    /// Whether the search was configured for multithreaded expansion. The
    /// library itself always expands deterministically in sequence; a
    /// caller may use this flag to drive expansions from worker threads.
    pub fn multithreaded(&self) -> (r: bool)
        ensures
            r == self.multithreaded,
    {
        self.multithreaded
    }

    /// Whether a backward frontier is present.
    pub fn bidirectional(&self) -> (r: bool)
        ensures
            r == (self.target_data is Some),
    {
        match &self.target_data {
            Some(_) => true,
            None => false,
        }
    }

    /// Switch bidirectional mode: on creates a fresh backward frontier
    /// seeded from the current target, off discards it. A shared node
    /// recorded by the backward frontier is dropped either way, since the
    /// frontier it points into is gone.
    pub fn set_bidirectional(&mut self, bidirectional: bool)
        requires
            old(self).wf(),
        ensures
            final(self).wf(),
            final(self).start == old(self).start,
            final(self).target == old(self).target,
            final(self).diagonal == old(self).diagonal,
            final(self).multithreaded == old(self).multithreaded,
            final(self).start_data == old(self).start_data,
            bidirectional ==> final(self).target_data is Some && final(self).target_data.unwrap().open_list@ == AStarData::spec_seeded(
                old(self).target,
                old(self).start,
            ) && final(self).target_data.unwrap().closed_list@ == Seq::<Entry>::empty(),
            !bidirectional ==> final(self).target_data is None,
            final(self).common_node == (if old(self).common_from_backward {
                None::<Node>
            } else {
                old(self).common_node
            }),
            final(self).common_from_backward == false,
    {
        if bidirectional {
            let td = AStarData::new(self.target, self.start);
            self.target_data = Some(td);
        } else {
            self.target_data = None;
        }
        if self.common_from_backward {
            self.common_node = None;
            self.common_from_backward = false;
        }
    }

    /// Run the termination check on both frontiers, recording the shared
    /// node of the last detection that fires; the backward frontier's
    /// detection, when both fire, wins.
    pub fn solved(&mut self) -> (r: bool)
        requires
            old(self).wf(),
        ensures
            final(self).wf(),
            final(self).start == old(self).start,
            final(self).target == old(self).target,
            final(self).diagonal == old(self).diagonal,
            final(self).multithreaded == old(self).multithreaded,
            final(self).start_data == old(self).start_data,
            final(self).target_data == old(self).target_data,
            final(self).v() == sv_after_solved(old(self).v()),
            r == sv_is_hit(old(self).v()),
    {
        proof {
            if old(self).start_data.open_list@.len() > 0 {
                lemma_best_idx_in_range(old(self).start_data.open_list@);
            }
            match old(self).target_data {
                Some(td) => {
                    if td.open_list@.len() > 0 {
                        lemma_best_idx_in_range(td.open_list@);
                    }
                },
                None => {},
            }
        }
        let mut any = false;
        let fwd = self.start_data.solved(self.target, self.target_data.as_ref());
        if let Some(node) = fwd {
            self.common_node = Some(node);
            self.common_from_backward = false;
            any = true;
        }
        let bwd = match &self.target_data {
            Some(t_d) => t_d.solved(self.start, Some(&self.start_data)),
            None => None,
        };
        if let Some(node) = bwd {
            self.common_node = Some(node);
            self.common_from_backward = true;
            any = true;
        }
        any
    }

    /// The state a re-seed leaves behind: both frontiers hold exactly their
    /// origin again, at the heuristic distance between the endpoints, and
    /// no shared node is recorded.
    pub open spec fn sv_cleared(sv: SearchView) -> SearchView {
        SearchView {
            start_data: DataView {
                open_list: AStarData::spec_seeded(sv.start, sv.target),
                closed_list: Seq::<Entry>::empty(),
            },
            target_data: match sv.target_data {
                Some(_) => Some(
                    DataView {
                        open_list: seq![
                            Entry {
                                node: Node { pos: sv.target, parent: None },
                                cost: Cost {
                                    g_cost: 0,
                                    h_cost: spec_h_cost(sv.start, sv.target) as usize,
                                },
                            },
                        ],
                        closed_list: Seq::<Entry>::empty(),
                    },
                ),
                None => None,
            },
            common_node: None,
            common_from_backward: false,
            ..sv
        }
    }

    /// Empty and re-seed both frontiers from the current endpoints, and
    /// forget any recorded shared node.
    pub fn clear(&mut self)
        requires
            old(self).wf(),
        ensures
            final(self).wf(),
            final(self).start == old(self).start,
            final(self).target == old(self).target,
            final(self).diagonal == old(self).diagonal,
            final(self).multithreaded == old(self).multithreaded,
            final(self).v() == Self::sv_cleared(old(self).v()),
    {
        proof {
            assert(0 <= spec_h_cost(self.start, self.target) <= 2 * 4095 * 4095)
                by (nonlinear_arith)
                requires
                    self.start.x < 4096,
                    self.start.y < 4096,
                    self.target.x < 4096,
                    self.target.y < 4096,
            ;
        }
        let h_cost = self.start.h_cost(&self.target);
        self.start_data.clear();
        self.start_data.push_open(self.start, h_cost);
        match &mut self.target_data {
            Some(t_d) => {
                t_d.clear();
                t_d.push_open(self.target, h_cost);
            },
            None => {},
        }
        self.common_node = None;
        self.common_from_backward = false;
        proof {
            assert(self.start_data.open_list@ =~= AStarData::spec_seeded(self.start, self.target));
            match &self.target_data {
                Some(td) => {
                    assert(td.open_list@ =~= seq![
                        Entry {
                            node: Node { pos: self.target, parent: None },
                            cost: Cost {
                                g_cost: 0,
                                h_cost: spec_h_cost(self.start, self.target) as usize,
                            },
                        },
                    ]);
                },
                None => {},
            }
            assert(self.v() == Self::sv_cleared(old(self).v()));
        }
    }

    /// The current start position.
    pub fn start(&self) -> (r: Position)
        ensures
            r == self.start,
    {
        self.start
    }

    /// Move the start and fully restart the search.
    pub fn set_start(&mut self, start: Position)
        requires
            old(self).wf(),
            start.x < MAX_DIM,
            start.y < MAX_DIM,
        ensures
            final(self).wf(),
            final(self).start == start,
            final(self).target == old(self).target,
            final(self).diagonal == old(self).diagonal,
            final(self).multithreaded == old(self).multithreaded,
            final(self).v() == Self::sv_cleared(
                SearchView { start: start, ..old(self).v() },
            ),
    {
        self.start = start;
        self.clear();
    }

    /// The current target position.
    pub fn target(&self) -> (r: Position)
        ensures
            r == self.target,
    {
        self.target
    }

    /// Move the target and fully restart the search.
    pub fn set_target(&mut self, target: Position)
        requires
            old(self).wf(),
            target.x < MAX_DIM,
            target.y < MAX_DIM,
        ensures
            final(self).wf(),
            final(self).start == old(self).start,
            final(self).target == target,
            final(self).diagonal == old(self).diagonal,
            final(self).multithreaded == old(self).multithreaded,
            final(self).v() == Self::sv_cleared(
                SearchView { target: target, ..old(self).v() },
            ),
    {
        self.target = target;
        self.clear();
    }

    /// The forward frontier's best open node.
    pub fn top(&self) -> (r: Option<Node>)
        requires
            self.wf(),
        ensures
            r == self.start_data.spec_top(),
    {
        self.start_data.top()
    }

    /// Whether diagonal movement is enabled.
    pub fn diagonal(&self) -> (r: bool)
        ensures
            r == self.diagonal,
    {
        self.diagonal
    }

    /// The (start, target) pair.
    pub fn end_points(&self) -> (r: (Position, Position))
        ensures
            r.0 == self.start,
            r.1 == self.target,
    {
        (self.start, self.target)
    }

    /// Whether `pos` is neither endpoint.
    pub fn not_start_nor_end(&self, pos: Position) -> (r: bool)
        ensures
            r == (pos != self.start && pos != self.target),
    {
        let (start, target) = self.end_points();
        pos != start && pos != target
    }

    /// Both frontiers' open and closed position snapshots, forward first.
    pub fn get_open_and_closed_list(&self) -> (r: (Vec<Position>, Vec<Position>))
        ensures
            r.0@ == positions_of(self.start_data.open_list@) + (match self.target_data {
                Some(td) => positions_of(td.open_list@),
                None => Seq::<Position>::empty(),
            }),
            r.1@ == positions_of(self.start_data.closed_list@) + (match self.target_data {
                Some(td) => positions_of(td.closed_list@),
                None => Seq::<Position>::empty(),
            }),
    {
        let (mut o, mut c) = self.start_data.get_lists();
        let ghost o0 = o@;
        let ghost c0 = c@;
        match &self.target_data {
            Some(t_d) => {
                let (mut o2, mut c2) = t_d.get_lists();
                o.append(&mut o2);
                c.append(&mut c2);
            },
            None => {
                proof {
                    assert(o@ =~= o0 + Seq::<Position>::empty());
                    assert(c@ =~= c0 + Seq::<Position>::empty());
                }
            },
        }
        (o, c)
    }
}


/// Whether both of a frontier view's lists stay inside the grid's bounds.
pub open spec fn dv_in_grid(dv: DataView, gm: GridModel) -> bool {
    in_grid(dv.open_list, gm.width, gm.height) && in_grid(dv.closed_list, gm.width, gm.height)
}

/// Whether every position the search has recorded lies inside the grid.
pub open spec fn sv_in_grid(sv: SearchView, gm: GridModel) -> bool {
    dv_in_grid(sv.start_data, gm) && match sv.target_data {
        Some(td) => dv_in_grid(td, gm),
        None => true,
    }
}

/// Fuel that always outlasts a run to completion: a search closes at least
/// one forward cell per advance, and can close at most one per grid cell.
pub open spec fn solve_fuel(gm: GridModel) -> nat {
    (gm.width * gm.height + 2) as nat
}

/// A run to completion: advance until either frontier is exhausted or a
/// detection fires, then stop. Extra fuel beyond termination changes
/// nothing, so any sufficient fuel gives the same final state.
pub open spec fn sv_solve(sv: SearchView, gm: GridModel, fuel: nat) -> SearchView
    decreases fuel,
{
    if fuel == 0 {
        sv
    } else if sv.start_data.open_list.len() == 0 || (match sv.target_data {
        Some(td) => td.open_list.len() == 0,
        None => false,
    }) {
        sv
    } else if sv_is_hit(sv) {
        sv_after_solved(sv)
    } else {
        sv_solve(sv_expand(sv, gm), gm, (fuel - 1) as nat)
    }
}

impl AStarData {
    /// Whether every recorded position lies inside a `w` by `h` grid.
    fn lists_in_bounds(&self, w: usize, h: usize) -> (r: bool)
        ensures
            r == (in_grid(self.open_list@, w as int, h as int) && in_grid(
                self.closed_list@,
                w as int,
                h as int,
            )),
    {
        let mut i: usize = 0;
        while i < self.open_list.len()
            invariant
                i <= self.open_list@.len(),
                forall|k: int|
                    0 <= k < i ==> (#[trigger] self.open_list@[k]).node.pos.x < w
                        && self.open_list@[k].node.pos.y < h,
            decreases self.open_list@.len() - i,
        {
            let p = self.open_list[i].node.pos;
            if !(p.x < w && p.y < h) {
                return false;
            }
            i = i + 1;
        }
        let mut j: usize = 0;
        while j < self.closed_list.len()
            invariant
                j <= self.closed_list@.len(),
                forall|k: int|
                    0 <= k < j ==> (#[trigger] self.closed_list@[k]).node.pos.x < w
                        && self.closed_list@[k].node.pos.y < h,
            decreases self.closed_list@.len() - j,
        {
            let p = self.closed_list[j].node.pos;
            if !(p.x < w && p.y < h) {
                return false;
            }
            j = j + 1;
        }
        true
    }
}

impl AStarBidirectional {
    /// One advance: record a detection if one fires, else expand each
    /// present, non-exhausted frontier once. With both axes of parallelism
    /// declined, the two expansions run in sequence; a multithreaded driver
    /// may instead call each frontier's expansion from its own worker.
    fn find(&mut self, grid_type: GridType<'_>)
        requires
            old(self).wf(),
            grid_type.wf(),
        ensures
            final(self).wf(),
            final(self).start == old(self).start,
            final(self).target == old(self).target,
            final(self).diagonal == old(self).diagonal,
            final(self).multithreaded == old(self).multithreaded,
            (final(self).target_data is Some) == (old(self).target_data is Some),
            final(self).v() == sv_find(old(self).v(), grid_type.gm()),
            sv_in_grid(old(self).v(), grid_type.gm()) ==> sv_in_grid(
                final(self).v(),
                grid_type.gm(),
            ),
    {
        let ghost gm = grid_type.gm();
        let ghost sv0 = self.v();
        if self.solved() {
            return ;
        }
        proof {
            assert(!sv_is_hit(sv0));
            assert(self.v() == sv0);
        }
        let target = self.target;
        let start = self.start;
        let diagonal = self.diagonal;
        if self.start_data.open_list.len() > 0 {
            self.start_data.find(grid_type, &target, diagonal);
        }
        match &mut self.target_data {
            Some(t_d) => {
                if t_d.open_list.len() > 0 {
                    t_d.find(grid_type, &start, diagonal);
                }
            },
            None => {},
        }
        proof {
            assert(self.v() == sv_expand(sv0, gm));
            if sv_in_grid(sv0, gm) {
                assert(sv_in_grid(self.v(), gm));
            }
        }
    }

    /// Run to completion: advance until a frontier is exhausted (no path
    /// exists) or a detection fires, then reconstruct. Fails fast when any
    /// recorded position, or either endpoint, lies outside the grid. The
    /// run ends as soon as the first frontier exhausts, so on a grid with
    /// no path the other frontier of a bidirectional search may still hold
    /// open entries.
    pub fn solve(&mut self, grid: GridType<'_>) -> (r: Result<Vec<Position>, SearchError>)
        requires
            old(self).wf(),
            grid.wf(),
        ensures
            final(self).wf(),
            r is Err <==> !(sv_in_grid(old(self).v(), grid.gm()) && grid.gm().in_bounds(
                old(self).start.x as int,
                old(self).start.y as int,
            ) && grid.gm().in_bounds(old(self).target.x as int, old(self).target.y as int)),
            r matches Err(e) ==> e == SearchError::OutOfBounds && *final(self) == *old(self),
            r matches Ok(path) ==> final(self).v() == sv_solve(
                old(self).v(),
                grid.gm(),
                solve_fuel(grid.gm()),
            ) && path@ == sv_trace(final(self).v()),
    {
        let ghost gm = grid.gm();
        let ghost sv0 = self.v();
        let ghost fuel0 = solve_fuel(gm);
        let (w, h) = grid.dimension();
        let mut valid = self.start_data.lists_in_bounds(w, h);
        match &self.target_data {
            Some(td) => {
                if !td.lists_in_bounds(w, h) {
                    valid = false;
                }
            },
            None => {},
        }
        if !(self.start.x < w && self.start.y < h && self.target.x < w && self.target.y < h) {
            valid = false;
        }
        if !valid {
            return Err(SearchError::OutOfBounds);
        }
        let ghost len0 = self.start_data.closed_list@.len();
        proof {
            assert(gm.width * gm.height >= 0) by (nonlinear_arith)
                requires
                    gm.width >= 0,
                    gm.height >= 0,
            ;
        }
        loop
            invariant_except_break
                self.wf(),
                grid.wf(),
                gm == grid.gm(),
                sv_in_grid(self.v(), gm),
                self.start == old(self).start,
                self.target == old(self).target,
                self.diagonal == old(self).diagonal,
                self.multithreaded == old(self).multithreaded,
                self.start_data.closed_list@.len() >= len0,
                self.start_data.closed_list@.len() - len0 <= fuel0 - 2,
                fuel0 == solve_fuel(gm),
                sv_solve(
                    self.v(),
                    gm,
                    (fuel0 - (self.start_data.closed_list@.len() - len0)) as nat,
                ) == sv_solve(sv0, gm, fuel0),
            ensures
                self.wf(),
                self.start == old(self).start,
                self.target == old(self).target,
                self.diagonal == old(self).diagonal,
                self.multithreaded == old(self).multithreaded,
                self.v() == sv_solve(sv0, gm, fuel0),
            decreases fuel0 - (self.start_data.closed_list@.len() - len0),
        {
            let ghost fuel_now = (fuel0 - (self.start_data.closed_list@.len() - len0)) as nat;
            let top = self.start_data.top();
            let mut open_empty = top.is_none();
            match &self.target_data {
                Some(t_d) => {
                    if t_d.top().is_none() {
                        open_empty = true;
                    }
                },
                None => {},
            }
            if open_empty {
                proof {
                    assert(sv_solve(self.v(), gm, fuel_now) == self.v());
                }
                break ;
            }
            let ghost sv_pre = self.v();
            let hit = self.solved();
            if hit {
                proof {
                    assert(sv_solve(sv_pre, gm, fuel_now) == sv_after_solved(sv_pre));
                    assert(self.v() == sv_after_solved(sv_pre));
                }
                break ;
            }
            proof {
                assert(self.v() == sv_pre);
                let both = self.start_data.closed_list@ + self.start_data.open_list@;
                let clen = self.start_data.closed_list@.len() as int;
                assert forall|i: int, j: int| 0 <= i < j < both.len() implies (
                #[trigger] both[i]).node.pos != (#[trigger] both[j]).node.pos by {
                    if j < clen {
                        assert(both[i] == self.start_data.closed_list@[i]);
                        assert(both[j] == self.start_data.closed_list@[j]);
                        assert(self.start_data.closed_list@[i].node.pos
                            != self.start_data.closed_list@[j].node.pos);
                    } else if i >= clen {
                        assert(both[i] == self.start_data.open_list@[i - clen]);
                        assert(both[j] == self.start_data.open_list@[j - clen]);
                        assert(self.start_data.open_list@[i - clen].node.pos
                            != self.start_data.open_list@[j - clen].node.pos);
                    } else {
                        assert(both[i] == self.start_data.closed_list@[i]);
                        assert(both[j] == self.start_data.open_list@[j - clen]);
                        assert(self.start_data.open_list@[j - clen].node.pos
                            != self.start_data.closed_list@[i].node.pos);
                    }
                }
                assert forall|i: int| 0 <= i < both.len() implies (
                #[trigger] both[i]).node.pos.x < gm.width && both[i].node.pos.y
                    < gm.height by {
                    if i < clen {
                        assert(both[i] == self.start_data.closed_list@[i]);
                        assert(self.start_data.closed_list@[i].node.pos.x < gm.width);
                    } else {
                        assert(both[i] == self.start_data.open_list@[i - clen]);
                        assert(self.start_data.open_list@[i - clen].node.pos.x < gm.width);
                    }
                }
                lemma_positions_capacity(both, gm.width, gm.height);
                assert(self.start_data.open_list@.len() > 0);
                assert(self.start_data.closed_list@.len() + self.start_data.open_list@.len()
                    <= gm.width * gm.height);
                assert(self.start_data.closed_list@.len() - len0 <= fuel0 - 3);
                assert(fuel_now >= 2);
                assert(sv_solve(sv_pre, gm, fuel_now) == sv_solve(
                    sv_expand(sv_pre, gm),
                    gm,
                    (fuel_now - 1) as nat,
                ));
            }
            self.find(grid);
            proof {
                assert(self.v() == sv_expand(sv_pre, gm));
                assert(self.start_data.closed_list@.len() == sv_pre.start_data.closed_list.len()
                    + 1);
            }
        }
        let path = self.trace();
        Ok(path)
    }
}


/// One frontier's side of the path for a given meeting node, over views.
pub open spec fn dv_trace(dv: DataView, n: Node, start: Position, target: Position) -> Seq<
    Position,
> {
    if has_pos(dv.closed_list, n.pos) {
        chain_from(dv.closed_list, pos_idx(dv.closed_list, n.pos), start, target)
    } else {
        Seq::<Position>::empty()
    }
}

/// The reconstructed path: the meeting node's own walk on the side that
/// detected it, then the forward frontier's closed walk from the meeting
/// position, then the backward frontier's. The sequence is a trace order,
/// not a sorted route, and when the backward frontier detected the meeting
/// the shared anchor position can appear twice: once as the head of the
/// meeting node's own walk and once as the head of the backward frontier's
/// closed walk.
pub open spec fn sv_trace(sv: SearchView) -> Seq<Position> {
    match sv.common_node {
        None => Seq::<Position>::empty(),
        Some(n) => {
            let own_closed = if sv.common_from_backward {
                sv.target_data.unwrap().closed_list
            } else {
                sv.start_data.closed_list
            };
            walk_node(own_closed, n, sv.start, sv.target) + dv_trace(
                sv.start_data,
                n,
                sv.start,
                sv.target,
            ) + (match sv.target_data {
                Some(td) => dv_trace(td, n, sv.start, sv.target),
                None => Seq::<Position>::empty(),
            })
        },
    }
}

impl AStarBidirectional {
    /// Reconstruct the final path from the recorded meeting node, or return
    /// an empty path when no detection has fired. The positions come in
    /// trace order, and a meeting detected by the backward frontier can
    /// contribute its anchor position twice, as `sv_trace` spells out.
    pub fn trace(&self) -> (path: Vec<Position>)
        requires
            self.wf(),
        ensures
            path@ == sv_trace(self.v()),
    {
        let end_points = self.end_points();
        match &self.common_node {
            None => {
                let path: Vec<Position> = Vec::new();
                proof {
                    assert(path@ =~= sv_trace(self.v()));
                }
                path
            },
            Some(node) => {
                let mut path = if self.common_from_backward {
                    match &self.target_data {
                        Some(td) => td.walk(node, end_points),
                        None => {
                            proof {
                                assert(false);
                            }
                            Vec::new()
                        },
                    }
                } else {
                    self.start_data.walk(node, end_points)
                };
                let ghost own = path@;
                let mut p_fwd = self.start_data.trace(node, end_points);
                let ghost fwd = p_fwd@;
                path.append(&mut p_fwd);
                match &self.target_data {
                    Some(td) => {
                        let mut p_bwd = td.trace(node, end_points);
                        let ghost bwd = p_bwd@;
                        path.append(&mut p_bwd);
                        proof {
                            assert(path@ =~= own + fwd + bwd);
                        }
                    },
                    None => {
                        proof {
                            assert(path@ =~= own + fwd + Seq::<Position>::empty());
                        }
                    },
                }
                path
            },
        }
    }
}


/// The cell of a row-major grid storage at (x, y).
pub open spec fn grid_cell(data: Seq<Cell>, w: int, x: int, y: int) -> Cell {
    data[y * w + x]
}

/// The cell a progress paint leaves at position `p`: endpoints are left
/// alone, the node about to be expanded shows as the tentative shortest
/// path, finalized positions as visited, other discovered positions as
/// visiting, and everything else keeps its old cell.
pub open spec fn spec_painted(
    old_cell: Cell,
    open_l: Seq<Entry>,
    closed_l: Seq<Entry>,
    top: Option<Node>,
    p: Position,
    start: Position,
    target: Position,
) -> Cell {
    if p == start || p == target {
        old_cell
    } else if (match top {
        Some(n) => n.pos == p,
        None => false,
    }) {
        Cell::ShortestPath
    } else if has_pos(closed_l, p) {
        Cell::Visited
    } else if has_pos(open_l, p) {
        Cell::Visiting
    } else {
        old_cell
    }
}

impl AStarData {
    /// Paint this frontier's progress into the grid: open positions as
    /// visiting, closed positions as visited, and the node the search
    /// would expand next as the tentative shortest path, never touching
    /// the two endpoints.
    #[verifier::rlimit(100)]
    pub fn modify_grid(&mut self, grid: &mut Grid, end_points: (Position, Position))
        requires
            old(self).wf(),
            old(grid).wf(),
            in_grid(old(self).open_list@, old(grid).width as int, old(grid).height as int),
            in_grid(old(self).closed_list@, old(grid).width as int, old(grid).height as int),
        ensures
            *final(self) == *old(self),
            final(grid).wf(),
            final(grid).width == old(grid).width,
            final(grid).height == old(grid).height,
            forall|x: int, y: int|
                0 <= x < old(grid).width && 0 <= y < old(grid).height ==> #[trigger] grid_cell(
                    final(grid).spec_data(),
                    old(grid).width as int,
                    x,
                    y,
                ) == spec_painted(
                    grid_cell(old(grid).spec_data(), old(grid).width as int, x, y),
                    old(self).open_list@,
                    old(self).closed_list@,
                    old(self).spec_top(),
                    Position { x: x as usize, y: y as usize },
                    end_points.0,
                    end_points.1,
                ),
    {
        let (start, target) = end_points;
        let ghost w = grid.width as int;
        let ghost h = grid.height as int;
        let ghost data0 = grid.spec_data();
        let mut i: usize = 0;
        while i < self.open_list.len()
            invariant
                self == old(self),
                old(self).wf(),
                grid.wf(),
                grid.width == old(grid).width,
                grid.height == old(grid).height,
                w == grid.width as int,
                h == grid.height as int,
                data0 == old(grid).spec_data(),
                in_grid(self.open_list@, w, h),
                in_grid(self.closed_list@, w, h),
                i <= self.open_list@.len(),
                start == end_points.0,
                target == end_points.1,
                forall|x: int, y: int|
                    0 <= x < w && 0 <= y < h ==> #[trigger] grid_cell(grid.spec_data(), w, x, y)
                        == (if (Position { x: x as usize, y: y as usize }) != start && (Position {
                        x: x as usize,
                        y: y as usize,
                    }) != target && has_pos(
                        self.open_list@.take(i as int),
                        Position { x: x as usize, y: y as usize },
                    ) {
                        Cell::Visiting
                    } else {
                        grid_cell(data0, w, x, y)
                    }),
            decreases self.open_list@.len() - i,
        {
            let p = self.open_list[i].node.pos;
            proof {
                assert(self.open_list@.take(i as int + 1) =~= self.open_list@.take(
                    i as int,
                ).push(self.open_list@[i as int]));
                assert(p.y * w + p.x < h * w) by (nonlinear_arith)
                    requires
                        0 <= p.x < w,
                        0 <= p.y < h,
                ;
                assert(grid.spec_data().len() == w * h);
                assert(h * w == w * h) by (nonlinear_arith);
            }
            let ghost pre = grid.spec_data();
            if p != start && p != target {
                grid.set(p.x, p.y, Cell::Visiting);
            }
            proof {
                assert forall|x: int, y: int| 0 <= x < w && 0 <= y < h implies #[trigger] grid_cell(
                    grid.spec_data(),
                    w,
                    x,
                    y,
                ) == (if (Position { x: x as usize, y: y as usize }) != start && (Position {
                    x: x as usize,
                    y: y as usize,
                }) != target && has_pos(
                    self.open_list@.take(i as int + 1),
                    Position { x: x as usize, y: y as usize },
                ) {
                    Cell::Visiting
                } else {
                    grid_cell(data0, w, x, y)
                }) by {
                    let q = Position { x: x as usize, y: y as usize };
                    if x == p.x && y == p.y {
                        assert(q == p);
                        assert(self.open_list@.take(i as int + 1)[i as int].node.pos == p);
                        assert(has_pos(self.open_list@.take(i as int + 1), p));
                    } else {
                        assert(y * w + x != p.y * w + p.x) by (nonlinear_arith)
                            requires
                                0 <= x < w,
                                0 <= p.x < w,
                                0 <= y,
                                0 <= p.y,
                                x != p.x || y != p.y,
                        ;
                        assert(0 <= y * w + x < w * h) by (nonlinear_arith)
                            requires
                                0 <= x < w,
                                0 <= y < h,
                        ;
                        assert(grid_cell(grid.spec_data(), w, x, y) == grid_cell(pre, w, x, y));
                        if has_pos(self.open_list@.take(i as int + 1), q) && !has_pos(
                            self.open_list@.take(i as int),
                            q,
                        ) {
                            let ii = choose|ii: int|
                                0 <= ii < self.open_list@.take(i as int + 1).len() && (
                                #[trigger] self.open_list@.take(i as int + 1)[ii]).node.pos == q;
                            if ii < i as int {
                                assert(self.open_list@.take(i as int)[ii].node.pos == q);
                            }
                            assert(false);
                        }
                        if has_pos(self.open_list@.take(i as int, ), q) {
                            let ii = choose|ii: int|
                                0 <= ii < self.open_list@.take(i as int).len() && (
                                #[trigger] self.open_list@.take(i as int)[ii]).node.pos == q;
                            assert(self.open_list@.take(i as int + 1)[ii].node.pos == q);
                            assert(has_pos(self.open_list@.take(i as int + 1), q));
                        }
                    }
                }
            }
            i = i + 1;
        }
        proof {
            assert(self.open_list@.take(self.open_list@.len() as int) =~= self.open_list@);
        }
        let ghost data1 = grid.spec_data();
        let mut j: usize = 0;
        while j < self.closed_list.len()
            invariant
                self == old(self),
                old(self).wf(),
                grid.wf(),
                grid.width == old(grid).width,
                grid.height == old(grid).height,
                w == grid.width as int,
                h == grid.height as int,
                in_grid(self.open_list@, w, h),
                in_grid(self.closed_list@, w, h),
                j <= self.closed_list@.len(),
                start == end_points.0,
                target == end_points.1,
                forall|x: int, y: int|
                    0 <= x < w && 0 <= y < h ==> #[trigger] grid_cell(grid.spec_data(), w, x, y)
                        == (if (Position { x: x as usize, y: y as usize }) != start && (Position {
                        x: x as usize,
                        y: y as usize,
                    }) != target && has_pos(
                        self.closed_list@.take(j as int),
                        Position { x: x as usize, y: y as usize },
                    ) {
                        Cell::Visited
                    } else {
                        grid_cell(data1, w, x, y)
                    }),
            decreases self.closed_list@.len() - j,
        {
            let p = self.closed_list[j].node.pos;
            proof {
                assert(self.closed_list@.take(j as int + 1) =~= self.closed_list@.take(
                    j as int,
                ).push(self.closed_list@[j as int]));
                assert(p.y * w + p.x < h * w) by (nonlinear_arith)
                    requires
                        0 <= p.x < w,
                        0 <= p.y < h,
                ;
                assert(grid.spec_data().len() == w * h);
                assert(h * w == w * h) by (nonlinear_arith);
            }
            let ghost pre = grid.spec_data();
            if p != start && p != target {
                grid.set(p.x, p.y, Cell::Visited);
            }
            proof {
                assert forall|x: int, y: int| 0 <= x < w && 0 <= y < h implies #[trigger] grid_cell(
                    grid.spec_data(),
                    w,
                    x,
                    y,
                ) == (if (Position { x: x as usize, y: y as usize }) != start && (Position {
                    x: x as usize,
                    y: y as usize,
                }) != target && has_pos(
                    self.closed_list@.take(j as int + 1),
                    Position { x: x as usize, y: y as usize },
                ) {
                    Cell::Visited
                } else {
                    grid_cell(data1, w, x, y)
                }) by {
                    let q = Position { x: x as usize, y: y as usize };
                    if x == p.x && y == p.y {
                        assert(q == p);
                        assert(self.closed_list@.take(j as int + 1)[j as int].node.pos == p);
                        assert(has_pos(self.closed_list@.take(j as int + 1), p));
                    } else {
                        assert(y * w + x != p.y * w + p.x) by (nonlinear_arith)
                            requires
                                0 <= x < w,
                                0 <= p.x < w,
                                0 <= y,
                                0 <= p.y,
                                x != p.x || y != p.y,
                        ;
                        assert(0 <= y * w + x < w * h) by (nonlinear_arith)
                            requires
                                0 <= x < w,
                                0 <= y < h,
                        ;
                        assert(grid_cell(grid.spec_data(), w, x, y) == grid_cell(pre, w, x, y));
                        if has_pos(self.closed_list@.take(j as int + 1), q) && !has_pos(
                            self.closed_list@.take(j as int),
                            q,
                        ) {
                            let jj = choose|jj: int|
                                0 <= jj < self.closed_list@.take(j as int + 1).len() && (
                                #[trigger] self.closed_list@.take(j as int + 1)[jj]).node.pos == q;
                            if jj < j as int {
                                assert(self.closed_list@.take(j as int)[jj].node.pos == q);
                            }
                            assert(false);
                        }
                        if has_pos(self.closed_list@.take(j as int), q) {
                            let jj = choose|jj: int|
                                0 <= jj < self.closed_list@.take(j as int).len() && (
                                #[trigger] self.closed_list@.take(j as int)[jj]).node.pos == q;
                            assert(self.closed_list@.take(j as int + 1)[jj].node.pos == q);
                            assert(has_pos(self.closed_list@.take(j as int + 1), q));
                        }
                    }
                }
            }
            j = j + 1;
        }
        proof {
            assert(self.closed_list@.take(self.closed_list@.len() as int) =~= self.closed_list@);
        }
        let ghost data2 = grid.spec_data();
        let top_node = self.top();
        if let Some(top) = top_node {
            proof {
                lemma_best_idx_in_range(self.open_list@);
                assert(top.pos.y * w + top.pos.x < h * w) by (nonlinear_arith)
                    requires
                        0 <= top.pos.x < w,
                        0 <= top.pos.y < h,
                ;
                assert(grid.spec_data().len() == w * h);
                assert(h * w == w * h) by (nonlinear_arith);
            }
            if top.pos != start && top.pos != target {
                grid.set(top.pos.x, top.pos.y, Cell::ShortestPath);
            }
        }
        proof {
            assert forall|x: int, y: int| 0 <= x < w && 0 <= y < h implies #[trigger] grid_cell(
                grid.spec_data(),
                w,
                x,
                y,
            ) == spec_painted(
                grid_cell(data0, w, x, y),
                self.open_list@,
                self.closed_list@,
                self.spec_top(),
                Position { x: x as usize, y: y as usize },
                start,
                target,
            ) by {
                let q = Position { x: x as usize, y: y as usize };
                match self.spec_top() {
                    Some(n) => {
                        assert(0 <= best_idx(self.open_list@) < self.open_list@.len()) by {
                            lemma_best_idx_in_range(self.open_list@);
                        }
                        if n.pos == q {
                            assert(has_pos(self.open_list@, q));
                        }
                        if x != n.pos.x || y != n.pos.y {
                            assert(y * w + x != n.pos.y * w + n.pos.x) by (nonlinear_arith)
                                requires
                                    0 <= x < w,
                                    0 <= n.pos.x < w,
                                    0 <= y,
                                    0 <= n.pos.y,
                                    x != n.pos.x || y != n.pos.y,
                            ;
                            assert(0 <= y * w + x < w * h) by (nonlinear_arith)
                                requires
                                    0 <= x < w,
                                    0 <= y < h,
                            ;
                            assert(grid_cell(grid.spec_data(), w, x, y) == grid_cell(
                                data2,
                                w,
                                x,
                                y,
                            ));
                        } else {
                            assert(q == n.pos);
                        }
                    },
                    None => {},
                }
            }
        }
    }
}

/// One frontier's paint of a single cell, over views.
pub open spec fn dv_painted_cell(
    dv: DataView,
    old_cell: Cell,
    p: Position,
    start: Position,
    target: Position,
) -> Cell {
    spec_painted(old_cell, dv.open_list, dv.closed_list, dv_top(dv), p, start, target)
}

/// The cell both frontiers' paints leave behind: the forward frontier
/// paints first, and the backward frontier, when present, paints over it.
pub open spec fn sv_painted_cell(sv: SearchView, old_cell: Cell, p: Position) -> Cell {
    let once = dv_painted_cell(sv.start_data, old_cell, p, sv.start, sv.target);
    match sv.target_data {
        Some(td) => dv_painted_cell(td, once, p, sv.start, sv.target),
        None => once,
    }
}

impl AStarBidirectional {
    /// One animation step: advance the search once and paint both
    /// frontiers' progress into the grid; a no-op once the forward frontier
    /// is exhausted.
    pub fn step(&mut self, grid: &mut Grid)
        requires
            old(self).wf(),
            old(grid).wf(),
            sv_in_grid(old(self).v(), GridType::Full(&*old(grid)).gm()),
        ensures
            final(self).wf(),
            final(grid).wf(),
            final(grid).width == old(grid).width,
            final(grid).height == old(grid).height,
            final(self).start == old(self).start,
            final(self).target == old(self).target,
            final(self).diagonal == old(self).diagonal,
            final(self).multithreaded == old(self).multithreaded,
            old(self).start_data.open_list@.len() == 0 ==> *final(self) == *old(self) && final(grid).spec_data() == old(grid).spec_data(),
            old(self).start_data.open_list@.len() > 0 ==> final(self).v() == sv_find(
                old(self).v(),
                GridType::Full(&*old(grid)).gm(),
            ),
            old(self).start_data.open_list@.len() > 0 ==> forall|x: int, y: int|
                0 <= x < old(grid).width && 0 <= y < old(grid).height ==> #[trigger] grid_cell(
                    final(grid).spec_data(),
                    old(grid).width as int,
                    x,
                    y,
                ) == sv_painted_cell(
                    sv_find(old(self).v(), GridType::Full(&*old(grid)).gm()),
                    grid_cell(old(grid).spec_data(), old(grid).width as int, x, y),
                    Position { x: x as usize, y: y as usize },
                ),
    {
        if self.start_data.open_list.len() > 0 {
            let ghost gm_pre = GridType::Full(&*grid).gm();
            let ghost w = grid.width as int;
            let ghost data0 = grid.spec_data();
            {
                let grid_view = GridType::Full(&*grid);
                self.find(grid_view);
            }
            let ghost svf = self.v();
            proof {
                assert(GridType::Full(&*grid).gm() == gm_pre);
                assert(sv_in_grid(self.v(), gm_pre));
                assert(grid.spec_data() == data0);
            }
            let end_points = self.end_points();
            self.start_data.modify_grid(grid, end_points);
            let ghost data1 = grid.spec_data();
            proof {
                assert(self.v() == svf);
                assert(forall|x: int, y: int|
                    0 <= x < w && 0 <= y < gm_pre.height ==> #[trigger] grid_cell(data1, w, x, y)
                        == dv_painted_cell(
                        svf.start_data,
                        grid_cell(data0, w, x, y),
                        Position { x: x as usize, y: y as usize },
                        self.start,
                        self.target,
                    ));
            }
            match &mut self.target_data {
                Some(t_d) => {
                    t_d.modify_grid(grid, end_points);
                },
                None => {},
            }
            proof {
                assert(self.v() == svf);
                assert forall|x: int, y: int| 0 <= x < w && 0 <= y < gm_pre.height implies
                    #[trigger] grid_cell(grid.spec_data(), w, x, y) == sv_painted_cell(
                    svf,
                    grid_cell(data0, w, x, y),
                    Position { x: x as usize, y: y as usize },
                ) by {
                    let p = Position { x: x as usize, y: y as usize };
                    match svf.target_data {
                        Some(td) => {
                            assert(grid_cell(grid.spec_data(), w, x, y) == dv_painted_cell(
                                td,
                                grid_cell(data1, w, x, y),
                                p,
                                self.start,
                                self.target,
                            ));
                        },
                        None => {
                            assert(grid.spec_data() == data1);
                        },
                    }
                }
            }
        }
    }

    /// The total movement cost of the found path: the meeting node's
    /// accumulated cost on the side that detected it, plus, in
    /// bidirectional mode, the accumulated cost the other frontier had
    /// finalized the meeting position at. `None` until a detection fires.
    pub fn path_cost(&self) -> (r: Option<usize>)
        requires
            self.wf(),
        ensures
            r is Some <==> self.common_node is Some,
            r matches Some(c) ==> ({
                let n = self.common_node.unwrap();
                let own = if self.common_from_backward {
                    self.target_data.unwrap()
                } else {
                    self.start_data
                };
                let g1: int = if has_pos(own.open_list@, n.pos) {
                    own.open_list@[pos_idx(own.open_list@, n.pos)].cost.g_cost as int
                } else {
                    0
                };
                let other_closed: Option<Seq<Entry>> = if self.common_from_backward {
                    Some(self.start_data.closed_list@)
                } else {
                    match self.target_data {
                        Some(td) => Some(td.closed_list@),
                        None => None,
                    }
                };
                let g2: int = match other_closed {
                    Some(c2) => if has_pos(c2, n.pos) {
                        c2[pos_idx(c2, n.pos)].cost.g_cost as int
                    } else {
                        0
                    },
                    None => 0,
                };
                c == g1 + g2
            }),
    {
        let node = match &self.common_node {
            Some(n) => *n,
            None => {
                return None;
            },
        };
        let own: &AStarData = if self.common_from_backward {
            match &self.target_data {
                Some(td) => td,
                None => {
                    proof {
                        assert(false);
                    }
                    &self.start_data
                },
            }
        } else {
            &self.start_data
        };
        proof {
            lemma_positions_capacity(own.closed_list@, MAX_DIM as int, MAX_DIM as int);
            lemma_positions_capacity(self.start_data.closed_list@, MAX_DIM as int, MAX_DIM as int);
            match &self.target_data {
                Some(td) => {
                    lemma_positions_capacity(td.closed_list@, MAX_DIM as int, MAX_DIM as int);
                },
                None => {},
            }
        }
        let g1: usize = match own.open_index_of(&node.pos) {
            Some(i) => {
                proof {
                    lemma_pos_idx_at(own.open_list@, i as int);
                }
                own.open_list[i].cost.g_cost
            },
            None => 0,
        };
        let other: Option<&AStarData> = if self.common_from_backward {
            Some(&self.start_data)
        } else {
            match &self.target_data {
                Some(td) => Some(td),
                None => None,
            }
        };
        let g2: usize = match other {
            Some(o) => {
                match o.closed_index_of(&node.pos) {
                    Some(i) => {
                        proof {
                            lemma_pos_idx_at(o.closed_list@, i as int);
                        }
                        o.closed_list[i].cost.g_cost
                    },
                    None => 0,
                }
            },
            None => 0,
        };
        Some(g1 + g2)
    }
}


/// The corridor grid: a free strip of `n` cells in one row.
pub open spec fn corridor_gm(n: int) -> GridModel {
    GridModel { width: n, height: 1, blocked: Set::empty() }
}

/// The `i`-th cell of the corridor as the search records it: reached from
/// its left neighbour at ten cost units a step, estimating towards the
/// right end of an `n`-cell corridor.
pub open spec fn corridor_entry(n: int, i: int) -> Entry {
    Entry {
        node: Node {
            pos: Position { x: i as usize, y: 0 },
            parent: if i == 0 {
                None
            } else {
                Some((i - 1) as usize)
            },
        },
        cost: Cost {
            g_cost: (10 * i) as usize,
            h_cost: spec_h_cost(
                Position { x: i as usize, y: 0 },
                Position { x: (n - 1) as usize, y: 0 },
            ) as usize,
        },
    }
}

/// The search state after `k` expansions on the corridor: cells `0` to
/// `k - 1` closed in order, and exactly the cell `k` open.
pub open spec fn corridor_state(n: int, k: int) -> SearchView {
    SearchView {
        start: Position { x: 0, y: 0 },
        start_data: DataView {
            open_list: seq![corridor_entry(n, k)],
            closed_list: Seq::new(k as nat, |i: int| corridor_entry(n, i)),
        },
        target: Position { x: (n - 1) as usize, y: 0 },
        target_data: None,
        common_node: None,
        common_from_backward: false,
        diagonal: false,
    }
}

/// The state a corridor run ends in: every interior cell closed, the right
/// end detected as the meeting node.
pub open spec fn corridor_final(n: int) -> SearchView {
    SearchView {
        common_node: Some(corridor_entry(n, n - 1).node),
        ..corridor_state(n, n - 1)
    }
}

/// One corridor expansion: no detection fires short of the right end, and
/// the advance closes cell `k` and opens cell `k + 1` alone — north and
/// south leave the strip, and west is already closed.
proof fn lemma_corridor_expand(n: int, k: int)
    requires
        2 <= n <= MAX_DIM,
        0 <= k < n - 1,
    ensures
        !sv_is_hit(corridor_state(n, k)),
        sv_expand(corridor_state(n, k), corridor_gm(n)) == corridor_state(n, k + 1),
{
    let st = corridor_state(n, k);
    let gm = corridor_gm(n);
    let open_l = st.start_data.open_list;
    let closed_l = st.start_data.closed_list;
    let cur = corridor_entry(n, k);
    assert(best_idx(open_l) == 0);
    assert(dv_top(st.start_data) == Some(cur.node));
    assert(cur.node.pos != st.target);
    assert(!sv_is_hit(st));
    let rest = open_l.remove(0);
    assert(rest =~= Seq::<Entry>::empty());
    let dirs = spec_directions(false);
    assert(dirs == seq![Direction::North, Direction::East, Direction::South, Direction::West]);
    // North leaves the strip.
    let o1 = spec_find_in_dir(rest, closed_l, cur, gm, st.target, Direction::North);
    assert(!gm.free_at(k, -1));
    assert(o1 == rest);
    // East opens the next cell.
    let o2 = spec_find_in_dir(o1, closed_l, cur, gm, st.target, Direction::East);
    assert(gm.free_at(k + 1, 0)) by {
        assert(!Set::<Position>::empty().contains(
            Position { x: (k + 1) as usize, y: 0 as usize },
        ));
    }
    let np = Position { x: (k + 1) as usize, y: 0 as usize };
    assert(!has_pos(closed_l, np)) by {
        if has_pos(closed_l, np) {
            let i = choose|i: int|
                0 <= i < closed_l.len() && (#[trigger] closed_l[i]).node.pos == np;
            assert(closed_l[i] == corridor_entry(n, i));
        }
    }
    assert(!has_pos(o1, np));
    let pushed = Entry {
        node: Node { pos: np, parent: Some(closed_l.len() as usize) },
        cost: Cost {
            g_cost: (cur.cost.g_cost + 10) as usize,
            h_cost: spec_h_cost(np, st.target) as usize,
        },
    };
    assert(o2 == o1.push(pushed));
    assert(pushed == corridor_entry(n, k + 1));
    assert(o2 =~= seq![corridor_entry(n, k + 1)]);
    // South leaves the strip.
    let o3 = spec_find_in_dir(o2, closed_l, cur, gm, st.target, Direction::South);
    assert(!gm.free_at(k, 1));
    assert(o3 == o2);
    // West is out of bounds at the left end and closed everywhere else.
    let o4 = spec_find_in_dir(o3, closed_l, cur, gm, st.target, Direction::West);
    if k == 0 {
        assert(!gm.free_at(-1, 0));
    } else {
        assert(gm.free_at(k - 1, 0)) by {
            assert(!Set::<Position>::empty().contains(
                Position { x: (k - 1) as usize, y: 0 as usize },
            ));
        }
        assert(closed_l[k - 1] == corridor_entry(n, k - 1));
        assert(has_pos(closed_l, Position { x: (k - 1) as usize, y: 0 as usize }));
    }
    assert(o4 == o3);
    // Fold the four directions together.
    assert(dirs.drop_first() =~= seq![Direction::East, Direction::South, Direction::West]);
    assert(dirs.drop_first().drop_first() =~= seq![Direction::South, Direction::West]);
    assert(dirs.drop_first().drop_first().drop_first() =~= seq![Direction::West]);
    assert(dirs.drop_first().drop_first().drop_first().drop_first() =~= Seq::<
        Direction,
    >::empty());
    assert(dirs[0] == Direction::North);
    assert(dirs.drop_first()[0] == Direction::East);
    assert(dirs.drop_first().drop_first()[0] == Direction::South);
    assert(dirs.drop_first().drop_first().drop_first()[0] == Direction::West);
    assert(spec_expand_dirs(rest, closed_l, cur, gm, st.target, dirs) == spec_expand_dirs(
        o1,
        closed_l,
        cur,
        gm,
        st.target,
        dirs.drop_first(),
    ));
    assert(spec_expand_dirs(o1, closed_l, cur, gm, st.target, dirs.drop_first())
        == spec_expand_dirs(o2, closed_l, cur, gm, st.target, dirs.drop_first().drop_first()));
    assert(spec_expand_dirs(o2, closed_l, cur, gm, st.target, dirs.drop_first().drop_first())
        == spec_expand_dirs(
        o3,
        closed_l,
        cur,
        gm,
        st.target,
        dirs.drop_first().drop_first().drop_first(),
    ));
    assert(spec_expand_dirs(
        o3,
        closed_l,
        cur,
        gm,
        st.target,
        dirs.drop_first().drop_first().drop_first(),
    ) == spec_expand_dirs(
        o4,
        closed_l,
        cur,
        gm,
        st.target,
        dirs.drop_first().drop_first().drop_first().drop_first(),
    ));
    assert(spec_expand_dirs(
        o4,
        closed_l,
        cur,
        gm,
        st.target,
        dirs.drop_first().drop_first().drop_first().drop_first(),
    ) == o4);
    assert(spec_expand_dirs(rest, closed_l, cur, gm, st.target, dirs) == o4);
    // Assemble the expanded state.
    let found = spec_find(open_l, closed_l, gm, st.target, false);
    assert(found.0 == o4);
    assert(found.1 =~= Seq::new((k + 1) as nat, |i: int| corridor_entry(n, i)));
    assert(dv_find(st.start_data, gm, st.target, false) == corridor_state(
        n,
        k + 1,
    ).start_data);
    assert(sv_expand(st, gm) == corridor_state(n, k + 1));
}

/// At the right end the forward frontier's best open node sits on the
/// target, so the detection fires and records it.
proof fn lemma_corridor_hit(n: int)
    requires
        2 <= n <= MAX_DIM,
    ensures
        sv_is_hit(corridor_state(n, n - 1)),
        sv_after_solved(corridor_state(n, n - 1)) == corridor_final(n),
{
    let st = corridor_state(n, n - 1);
    assert(best_idx(st.start_data.open_list) == 0);
    assert(dv_top(st.start_data) == Some(corridor_entry(n, n - 1).node));
    assert(corridor_entry(n, n - 1).node.pos == st.target);
    assert(sv_hits(st).0 == Some(corridor_entry(n, n - 1).node));
    assert(sv_hits(st).1 is None);
}

/// Running the remaining corridor to completion from any intermediate
/// state reaches the final state, with one fuel unit per remaining cell.
proof fn lemma_corridor_run(n: int, k: int, fuel: nat)
    requires
        2 <= n <= MAX_DIM,
        0 <= k <= n - 1,
        fuel >= n - k,
    ensures
        sv_solve(corridor_state(n, k), corridor_gm(n), fuel) == corridor_final(n),
    decreases n - k,
{
    let st = corridor_state(n, k);
    let gm = corridor_gm(n);
    assert(st.start_data.open_list.len() == 1);
    if k == n - 1 {
        lemma_corridor_hit(n);
        assert(sv_solve(st, gm, fuel) == sv_after_solved(st));
    } else {
        lemma_corridor_expand(n, k);
        assert(sv_solve(st, gm, fuel) == sv_solve(
            corridor_state(n, k + 1),
            gm,
            (fuel - 1) as nat,
        ));
        lemma_corridor_run(n, k + 1, (fuel - 1) as nat);
    }
}

/// The parent walk down the corridor's closed list from cell `j` collects
/// the cells `j` down to `1`, in that order; the start cell is excluded.
proof fn lemma_corridor_chain(n: int, j: int)
    requires
        2 <= n <= MAX_DIM,
        0 <= j <= n - 2,
    ensures
        chain_from(
            Seq::new((n - 1) as nat, |i: int| corridor_entry(n, i)),
            j,
            Position { x: 0, y: 0 },
            Position { x: (n - 1) as usize, y: 0 },
        ) == Seq::new(j as nat, |i: int| Position { x: (j - i) as usize, y: 0 }),
    decreases j,
{
    let closed_l = Seq::new((n - 1) as nat, |i: int| corridor_entry(n, i));
    let start = Position { x: 0, y: 0 };
    let target = Position { x: (n - 1) as usize, y: 0 };
    if j == 0 {
        assert(closed_l[0] == corridor_entry(n, 0));
        assert(chain_from(closed_l, 0, start, target) =~= Seq::new(
            0,
            |i: int| Position { x: (0 - i) as usize, y: 0 },
        ));
    } else {
        lemma_corridor_chain(n, j - 1);
        assert(closed_l[j] == corridor_entry(n, j));
        assert(corridor_entry(n, j).node.pos != start);
        assert(corridor_entry(n, j).node.pos != target);
        assert(chain_from(closed_l, j, start, target) == seq![
            Position { x: j as usize, y: 0 },
        ] + chain_from(closed_l, j - 1, start, target));
        assert(seq![Position { x: j as usize, y: 0 }] + Seq::new(
            (j - 1) as nat,
            |i: int| Position { x: (j - 1 - i) as usize, y: 0 },
        ) =~= Seq::new(j as nat, |i: int| Position { x: (j - i) as usize, y: 0 }));
    }
}

/// Law: the single-corridor property. On a straight, unobstructed corridor
/// of `n` cells in 4-directional, unidirectional mode, the run from one end
/// detects the other end; the reconstructed path is exactly the `n - 2`
/// interior cells, walked from the far side back, both endpoints excluded;
/// and the detected node's accumulated cost is `10 * (n - 1)`, one cardinal
/// step per cell boundary — the value `path_cost` reports.
pub proof fn lemma_single_corridor(n: usize)
    requires
        2 <= n <= MAX_DIM,
    ensures
        ({
            let cfg = AStarConfig {
                start: Position { x: 0, y: 0 },
                target: Position { x: (n - 1) as usize, y: 0 },
                diagonal: false,
                multithreaded: false,
                bidirectional: false,
            };
            let gm = corridor_gm(n as int);
            let fin = sv_solve(sv_new(cfg), gm, solve_fuel(gm));
            &&& fin == corridor_final(n as int)
            &&& fin.common_node == Some(corridor_entry(n as int, n - 1).node)
            &&& fin.common_node.unwrap().pos == (Position { x: (n - 1) as usize, y: 0 })
            &&& fin.start_data.open_list.len() == 1
            &&& fin.start_data.open_list[0].cost.g_cost == 10 * (n - 1)
            &&& sv_trace(fin) == Seq::new(
                (n - 2) as nat,
                |i: int| Position { x: (n - 2 - i) as usize, y: 0 },
            )
        }),
{
    let ni = n as int;
    let cfg = AStarConfig {
        start: Position { x: 0, y: 0 },
        target: Position { x: (n - 1) as usize, y: 0 },
        diagonal: false,
        multithreaded: false,
        bidirectional: false,
    };
    let gm = corridor_gm(ni);
    assert(sv_new(cfg).start_data.open_list =~= corridor_state(ni, 0).start_data.open_list) by {
        assert(AStarData::spec_seeded(cfg.start, cfg.target)[0] == corridor_entry(ni, 0));
    }
    assert(sv_new(cfg).start_data.closed_list =~= corridor_state(ni, 0).start_data.closed_list);
    assert(sv_new(cfg) == corridor_state(ni, 0));
    assert(gm.width * gm.height == ni) by (nonlinear_arith)
        requires
            gm.width == ni,
            gm.height == 1,
    ;
    assert(solve_fuel(gm) == (ni + 2) as nat);
    lemma_corridor_run(ni, 0, solve_fuel(gm));
    let fin = corridor_final(ni);
    assert(fin.start_data.open_list[0] == corridor_entry(ni, ni - 1));
    // The trace: the meeting node's own walk is the whole interior, and the
    // forward frontier never closed the target, so its own trace is empty.
    let closed_l = fin.start_data.closed_list;
    let m = corridor_entry(ni, ni - 1).node;
    assert(!has_pos(closed_l, m.pos)) by {
        if has_pos(closed_l, m.pos) {
            let i = choose|i: int|
                0 <= i < closed_l.len() && (#[trigger] closed_l[i]).node.pos == m.pos;
            assert(closed_l[i] == corridor_entry(ni, i));
        }
    }
    lemma_corridor_chain(ni, ni - 2);
    assert(walk_node(closed_l, m, fin.start, fin.target) == Seq::<Position>::empty()
        + chain_from(closed_l, ni - 2, fin.start, fin.target));
    assert(sv_trace(fin) == walk_node(closed_l, m, fin.start, fin.target) + dv_trace(
        fin.start_data,
        m,
        fin.start,
        fin.target,
    ) + Seq::<Position>::empty());
    assert(sv_trace(fin) =~= Seq::new(
        (n - 2) as nat,
        |i: int| Position { x: (n - 2 - i) as usize, y: 0 },
    ));
}


/// All entries' positions lie in the region `c`.
pub open spec fn entries_in(s: Seq<Entry>, c: Set<Position>) -> bool {
    forall|i: int| 0 <= i < s.len() ==> c.contains((#[trigger] s[i]).node.pos)
}

/// A region of the grid that no free step leaves: every free cell one step
/// from a member is itself a member. The free cells enclosed by a closed
/// wall of blocked cells form such a region.
pub open spec fn region_closed(c: Set<Position>, gm: GridModel) -> bool {
    forall|p: Position, d: Direction|
        #![trigger c.contains(p), d.spec_offset()]
        c.contains(p) && gm.free_at(p.x + d.spec_offset().0, p.y + d.spec_offset().1)
            ==> c.contains(
            Position {
                x: (p.x + d.spec_offset().0) as usize,
                y: (p.y + d.spec_offset().1) as usize,
            },
        )
}

proof fn lemma_region_step(c: Set<Position>, gm: GridModel, p: Position, d: Direction)
    requires
        region_closed(c, gm),
        c.contains(p),
        gm.free_at(p.x + d.spec_offset().0, p.y + d.spec_offset().1),
    ensures
        c.contains(
            Position {
                x: (p.x + d.spec_offset().0) as usize,
                y: (p.y + d.spec_offset().1) as usize,
            },
        ),
{
}

/// Trying one direction cannot take the open list out of a step-closed
/// region that holds the node being expanded.
proof fn lemma_find_in_dir_confined(
    open_l: Seq<Entry>,
    closed_l: Seq<Entry>,
    cur: Entry,
    gm: GridModel,
    target: Position,
    d: Direction,
    c: Set<Position>,
)
    requires
        entries_in(open_l, c),
        region_closed(c, gm),
        c.contains(cur.node.pos),
    ensures
        entries_in(spec_find_in_dir(open_l, closed_l, cur, gm, target, d), c),
{
    let nx = cur.node.pos.x + d.spec_offset().0;
    let ny = cur.node.pos.y + d.spec_offset().1;
    let res = spec_find_in_dir(open_l, closed_l, cur, gm, target, d);
    if gm.free_at(nx, ny) {
        lemma_region_step(c, gm, cur.node.pos, d);
        let np = Position { x: nx as usize, y: ny as usize };
        assert(c.contains(np));
        assert forall|i: int| 0 <= i < res.len() implies c.contains(
            (#[trigger] res[i]).node.pos,
        ) by {
            if !has_pos(closed_l, np) {
                if has_pos(open_l, np) {
                    let j = pos_idx(open_l, np);
                    assert(res[i] == open_l[i] || res[i].node.pos == np);
                } else {
                    assert(res[i] == open_l[i] || res[i].node.pos == np);
                }
            }
        }
    }
}

/// A whole direction fold stays inside the region.
proof fn lemma_expand_dirs_confined(
    open_l: Seq<Entry>,
    closed_l: Seq<Entry>,
    cur: Entry,
    gm: GridModel,
    target: Position,
    dirs: Seq<Direction>,
    c: Set<Position>,
)
    requires
        entries_in(open_l, c),
        region_closed(c, gm),
        c.contains(cur.node.pos),
    ensures
        entries_in(spec_expand_dirs(open_l, closed_l, cur, gm, target, dirs), c),
    decreases dirs.len(),
{
    if dirs.len() != 0 {
        lemma_find_in_dir_confined(open_l, closed_l, cur, gm, target, dirs[0], c);
        lemma_expand_dirs_confined(
            spec_find_in_dir(open_l, closed_l, cur, gm, target, dirs[0]),
            closed_l,
            cur,
            gm,
            target,
            dirs.drop_first(),
            c,
        );
    }
}

/// A whole expansion step stays inside the region.
proof fn lemma_find_confined(
    open_l: Seq<Entry>,
    closed_l: Seq<Entry>,
    gm: GridModel,
    target: Position,
    diagonal: bool,
    c: Set<Position>,
)
    requires
        open_l.len() > 0,
        entries_in(open_l, c),
        entries_in(closed_l, c),
        region_closed(c, gm),
    ensures
        entries_in(spec_find(open_l, closed_l, gm, target, diagonal).0, c),
        entries_in(spec_find(open_l, closed_l, gm, target, diagonal).1, c),
{
    lemma_best_idx_in_range(open_l);
    let b = best_idx(open_l);
    let cur = open_l[b];
    let rest = open_l.remove(b);
    open_l.remove_ensures(b);
    assert(entries_in(rest, c)) by {
        assert forall|i: int| 0 <= i < rest.len() implies c.contains(
            (#[trigger] rest[i]).node.pos,
        ) by {
            if i < b {
                assert(rest[i] == open_l[i]);
            } else {
                assert(rest[i] == open_l[i + 1]);
            }
        }
    }
    lemma_expand_dirs_confined(rest, closed_l, cur, gm, target, spec_directions(diagonal), c);
}

/// While the forward frontier stays in a region without the target, and
/// the backward frontier (when present) stays in a region without the
/// start that shares no cell with the forward one, no detection can fire.
proof fn lemma_separated_no_hit(
    sv: SearchView,
    gm: GridModel,
    cf: Set<Position>,
    cb: Set<Position>,
)
    requires
        entries_in(sv.start_data.open_list, cf),
        entries_in(sv.start_data.closed_list, cf),
        !cf.contains(sv.target),
        match sv.target_data {
            Some(td) => {
                &&& entries_in(td.open_list, cb)
                &&& entries_in(td.closed_list, cb)
                &&& !cb.contains(sv.start)
                &&& forall|p: Position| !(#[trigger] cf.contains(p) && cb.contains(p))
            },
            None => true,
        },
    ensures
        !sv_is_hit(sv),
{
    if sv.start_data.open_list.len() > 0 {
        lemma_best_idx_in_range(sv.start_data.open_list);
        let top = sv.start_data.open_list[best_idx(sv.start_data.open_list)].node;
        assert(cf.contains(top.pos));
        assert(top.pos != sv.target);
        match sv.target_data {
            Some(td) => {
                if has_pos(td.closed_list, top.pos) {
                    let i = choose|i: int|
                        0 <= i < td.closed_list.len() && (#[trigger] td.closed_list[i]).node.pos
                            == top.pos;
                    assert(cb.contains(top.pos));
                }
            },
            None => {},
        }
        assert(sv_hits(sv).0 is None);
    }
    match sv.target_data {
        Some(td) => {
            if td.open_list.len() > 0 {
                lemma_best_idx_in_range(td.open_list);
                let top = td.open_list[best_idx(td.open_list)].node;
                assert(cb.contains(top.pos));
                assert(top.pos != sv.start);
                if has_pos(sv.start_data.closed_list, top.pos) {
                    let i = choose|i: int|
                        0 <= i < sv.start_data.closed_list.len() && (
                        #[trigger] sv.start_data.closed_list[i]).node.pos == top.pos;
                    assert(cf.contains(top.pos));
                }
                assert(sv_hits(sv).1 is None);
            }
        },
        None => {},
    }
}

/// Law: the no-path property. When every position the forward frontier has
/// recorded lies in a step-closed region that excludes the target — as the
/// free cells inside a closed wall of blocked cells around the start do —
/// and, in bidirectional mode, the backward frontier likewise sits in a
/// step-closed region that excludes the start and shares no cell with the
/// forward one, then however long the search runs it never records a
/// meeting node, and the reported path is empty.
pub proof fn lemma_separated_no_path(
    sv: SearchView,
    gm: GridModel,
    cf: Set<Position>,
    cb: Set<Position>,
    fuel: nat,
)
    requires
        sv.common_node is None,
        entries_in(sv.start_data.open_list, cf),
        entries_in(sv.start_data.closed_list, cf),
        region_closed(cf, gm),
        !cf.contains(sv.target),
        match sv.target_data {
            Some(td) => {
                &&& entries_in(td.open_list, cb)
                &&& entries_in(td.closed_list, cb)
                &&& region_closed(cb, gm)
                &&& !cb.contains(sv.start)
                &&& forall|p: Position| !(#[trigger] cf.contains(p) && cb.contains(p))
            },
            None => true,
        },
    ensures
        sv_solve(sv, gm, fuel).common_node is None,
        sv_trace(sv_solve(sv, gm, fuel)) == Seq::<Position>::empty(),
    decreases fuel,
{
    if fuel != 0 && !(sv.start_data.open_list.len() == 0 || (match sv.target_data {
        Some(td) => td.open_list.len() == 0,
        None => false,
    })) {
        lemma_separated_no_hit(sv, gm, cf, cb);
        let next = sv_expand(sv, gm);
        assert(sv_solve(sv, gm, fuel) == sv_solve(next, gm, (fuel - 1) as nat));
        if sv.start_data.open_list.len() > 0 {
            lemma_find_confined(
                sv.start_data.open_list,
                sv.start_data.closed_list,
                gm,
                sv.target,
                sv.diagonal,
                cf,
            );
        }
        match sv.target_data {
            Some(td) => {
                if td.open_list.len() > 0 {
                    lemma_find_confined(td.open_list, td.closed_list, gm, sv.start, sv.diagonal, cb);
                }
            },
            None => {},
        }
        lemma_separated_no_path(next, gm, cf, cb, (fuel - 1) as nat);
    }
}

/// Law: a run that ends without a detection reports no path. An exhausted
/// frontier is a valid outcome, not an error, and it is signalled by an
/// empty path.
pub proof fn lemma_no_detection_no_path(sv: SearchView, gm: GridModel, fuel: nat)
    requires
        sv_solve(sv, gm, fuel).common_node is None,
    ensures
        sv_trace(sv_solve(sv, gm, fuel)) == Seq::<Position>::empty(),
{
}

/// Law: re-seeding is idempotent. Clearing a search that was just cleared
/// leaves it exactly as it was, so any number of consecutive re-seeds is
/// one re-seed.
pub proof fn lemma_clear_idempotent(sv: SearchView)
    ensures
        AStarBidirectional::sv_cleared(AStarBidirectional::sv_cleared(sv))
            == AStarBidirectional::sv_cleared(sv),
{
}

/// Law: the search is deterministic under re-seeding. Two searches that
/// agree on start, target, diagonal mode and whether a backward frontier is
/// present are, once cleared, in identical states, so running either to
/// completion on the same grid yields the same final state and the same
/// path. Clearing and solving again with unchanged endpoints therefore
/// reproduces the path exactly.
pub proof fn lemma_reseed_solve_deterministic(a: SearchView, b: SearchView, gm: GridModel)
    requires
        a.start == b.start,
        a.target == b.target,
        a.diagonal == b.diagonal,
        (a.target_data is Some) == (b.target_data is Some),
    ensures
        AStarBidirectional::sv_cleared(a) == AStarBidirectional::sv_cleared(b),
        sv_solve(AStarBidirectional::sv_cleared(a), gm, solve_fuel(gm)) == sv_solve(
            AStarBidirectional::sv_cleared(b),
            gm,
            solve_fuel(gm),
        ),
        sv_trace(sv_solve(AStarBidirectional::sv_cleared(a), gm, solve_fuel(gm))) == sv_trace(
            sv_solve(AStarBidirectional::sv_cleared(b), gm, solve_fuel(gm)),
        ),
{
}


} // verus!
