//! The search engine.
//!
//! One stepping loop drives every algorithm. An algorithm is a frontier
//! structure (priority queue / FIFO queue / LIFO stack) plus a priority
//! `f = g_w * g + h_w * h`. Costs are fixed-point: `COST_ONE` is one unit of
//! base step cost, and entering a cell costs `STEP_COST[k] * weight` for a
//! move touching `k` axes (1, √2, √3 to 40 fractional bits).

use vstd::prelude::*;

verus! {

/// One unit of cost: 2^40.
pub const COST_ONE: u64 = 0x100_0000_0000;
/// √2 to 40 fractional bits, rounded to nearest.
pub const SQRT_2: u64 = 1_554_944_255_988;
/// √3 to 40 fractional bits, rounded to nearest.
pub const SQRT_3: u64 = 1_904_410_002_821;
/// Base step cost indexed by how many axes the move touches.
pub const STEP_COST: [u64; 4] = [0, COST_ONE, SQRT_2, SQRT_3];

/// `a - b`, but never below zero.
pub open spec fn sat_sub(a: int, b: int) -> int {
    if a < b {
        0
    } else {
        a - b
    }
}

/// Base cost of a move over `k` axes.
pub open spec fn step_cost(k: int) -> int {
    if k == 1 {
        COST_ONE as int
    } else if k == 2 {
        SQRT_2 as int
    } else if k == 3 {
        SQRT_3 as int
    } else {
        0
    }
}

} // verus!

verus! {

use crate::domain::Domain;
use crate::heap::{MinHeap, Node, node_le};
use vstd::multiset::Multiset;
use crate::route::{edge, passable, path_cost_spec, is_walk, is_route, legal_step, open_cell, parent_forest};
use crate::{CLOSED, FREE, OBST, OPEN, PATH, T_OBST, T_VOID};

// Algorithm ids. Must match the UI dropdown.
pub const ALGO_ASTAR: u8 = 0;
pub const ALGO_DIJKSTRA: u8 = 1;
pub const ALGO_GREEDY: u8 = 2;
pub const ALGO_SWARM: u8 = 3;
pub const ALGO_CONVERGENT: u8 = 4;
pub const ALGO_BISWARM: u8 = 5;
pub const ALGO_BFS: u8 = 6;
pub const ALGO_DFS: u8 = 7;

pub const NO_PARENT: u32 = u32::MAX;

// Frontier structures.
pub const FR_PQ: u8 = 0;
pub const FR_FIFO: u8 = 1;
pub const FR_LIFO: u8 = 2;

// Per-search cell status.
pub const UNSEEN: u8 = 0;
pub const S_OPEN: u8 = 1;
pub const S_CLOSED: u8 = 2;

/// Frontier structure of an algorithm.
pub open spec fn frontier_kind_of(algo: u8) -> u8 {
    if algo == ALGO_BFS {
        FR_FIFO
    } else if algo == ALGO_DFS {
        FR_LIFO
    } else {
        FR_PQ
    }
}

/// Doubled priority weights `(2 g_w, 2 h_w)`: A* (1, 1), Dijkstra (1, 0),
/// Greedy (0, 1), Swarm and Bidirectional Swarm (1, 1.5), Convergent
/// Swarm (1, 3); the hop searches do not use them.
pub open spec fn weights_of(algo: u8) -> (int, int) {
    if algo == ALGO_ASTAR {
        (2, 2)
    } else if algo == ALGO_GREEDY {
        (0, 2)
    } else if algo == ALGO_SWARM || algo == ALGO_BISWARM {
        (2, 3)
    } else if algo == ALGO_CONVERGENT {
        (2, 6)
    } else {
        (2, 0)
    }
}

/// The octile form `a*1 + b*(√2-1) + c*(√3-√2)` with its coefficients in
/// decreasing order, so the assignment of sorted deltas maximises it.
pub open spec fn octile(a: int, b: int, c: int) -> int {
    a * COST_ONE + b * (SQRT_2 - COST_ONE) + c * (SQRT_3 - SQRT_2)
}

pub open spec fn max_of(a: int, b: int) -> int {
    if a < b {
        b
    } else {
        a
    }
}

/// Exact minimum base cost across an empty grid for per-axis separations
/// `d`: `(a-b) + (b-c)√2 + c√3` for the deltas sorted `a >= b >= c` with
/// diagonals (the largest octile form over all orderings), Manhattan
/// without.
pub open spec fn heuristic_of(d0: int, d1: int, d2: int, diagonals: bool) -> int {
    if !diagonals {
        (d0 + d1 + d2) * COST_ONE
    } else {
        max_of(
            max_of(max_of(octile(d0, d1, d2), octile(d0, d2, d1)), max_of(octile(d1, d0, d2), octile(d1, d2, d0))),
            max_of(octile(d2, d0, d1), octile(d2, d1, d0)),
        )
    }
}

/// Heuristic from cell `u` toward `target`.
pub open spec fn heuristic(dom: Domain, diagonals: bool, u: int, target: int) -> int {
    heuristic_of(dom.delta(u, target, 0), dom.delta(u, target, 1), dom.delta(u, target, 2), diagonals)
}

/// Cost of moving from `u` into `v`: base cost of the move times `v`'s weight.
pub open spec fn edge_cost(dom: Domain, terrain: Seq<u8>, u: int, v: int) -> int {
    step_cost(dom.step_axes(u, v)) * terrain[v]
}

/// Heap frontier entry for a cell with score `g`.
pub open spec fn entry_for(gw: int, hw: int, g: int, h: int, v: int) -> Node {
    Node { f: (gw * g + hw * h) as u128, h: h as u128, idx: v as u32 }
}

} // verus!

verus! {

/// For sorted deltas the octile form equals the heuristic.
pub proof fn lemma_sorted_octile(a: int, b: int, c: int, d0: int, d1: int, d2: int)
    requires
        a >= b >= c >= 0,
        (a == d0 && b == d1 && c == d2) || (a == d0 && b == d2 && c == d1) || (a == d1 && b == d0 && c == d2)
            || (a == d1 && b == d2 && c == d0) || (a == d2 && b == d0 && c == d1) || (a == d2 && b == d1 && c == d0),
    ensures
        heuristic_of(d0, d1, d2, true) == (a - b) * COST_ONE + (b - c) * SQRT_2 + c * SQRT_3,
        heuristic_of(d0, d1, d2, true) == octile(a, b, c),
{
    assert(octile(a, b, c) >= octile(a, c, b));
    assert(octile(a, b, c) >= octile(b, a, c));
    assert(octile(a, b, c) >= octile(b, c, a));
    assert(octile(a, b, c) >= octile(c, a, b));
    assert(octile(a, b, c) >= octile(c, b, a));
}

/// Heuristic toward `target`: the exact minimum base cost across an empty
/// grid, octile with diagonals, Manhattan without, wrap-aware per axis.
#[verifier::rlimit(30)]
pub fn heuristic_exec(dom: &Domain, diagonals: bool, idx: u32, target: u32) -> (h: u128)
    requires
        dom.wf(),
        idx < dom.size(),
        target < dom.size(),
    ensures
        h == heuristic(*dom, diagonals, idx as int, target as int),
        h <= 3 * 0x8000_0000 * SQRT_3,
{
    let (x, y, z) = dom.coords(idx);
    let (tx, ty, tz) = dom.coords(target);
    let d0 = dom.axis_delta(x, tx, 0) as u128;
    let d1 = dom.axis_delta(y, ty, 1) as u128;
    let d2 = dom.axis_delta(z, tz, 2) as u128;
    if !diagonals {
        return (d0 + d1 + d2) * (COST_ONE as u128);
    }
    let a = if d0 >= d1 && d0 >= d2 {
        d0
    } else if d1 >= d2 {
        d1
    } else {
        d2
    };
    let c = if d0 <= d1 && d0 <= d2 {
        d0
    } else if d1 <= d2 {
        d1
    } else {
        d2
    };
    let b = d0 + d1 + d2 - a - c;
    proof {
        lemma_sorted_octile(a as int, b as int, c as int, d0 as int, d1 as int, d2 as int);
    }
    (a - b) * (COST_ONE as u128) + (b - c) * (SQRT_2 as u128) + c * (SQRT_3 as u128)
}

} // verus!

verus! {

/// Largest cost of a single move: √3 times the largest weight byte.
pub const MAX_STEP: u128 = 485_624_550_719_355;

pub proof fn lemma_step_bound(k: int, w: int)
    requires
        0 <= w <= 255,
    ensures
        0 <= step_cost(k) * w <= MAX_STEP,
{
    assert(0 <= step_cost(k) <= SQRT_3);
    assert(0 <= step_cost(k) * w <= SQRT_3 * 255) by (nonlinear_arith)
        requires
            0 <= step_cost(k) <= SQRT_3,
            0 <= w <= 255,
    ;
}

/// FIFO/LIFO frontier entry: the cell, the branch it came from and the
/// score it would get along that branch.
#[derive(Clone, Copy)]
pub struct QEntry {
    pub idx: u32,
    pub parent: u32,
    pub g: u128,
}

pub open spec fn closed_set(stat: Seq<u8>) -> Set<int> {
    Set::new(|v: int| 0 <= v < stat.len() && stat[v] == S_CLOSED)
}

pub open spec fn open_set(stat: Seq<u8>) -> Set<int> {
    Set::new(|v: int| 0 <= v < stat.len() && stat[v] == S_OPEN)
}

pub proof fn lemma_status_sets_finite(stat: Seq<u8>)
    ensures
        closed_set(stat).finite(),
        open_set(stat).finite(),
        closed_set(stat).len() + open_set(stat).len() <= stat.len(),
{
    let r = vstd::set_lib::set_int_range(0, stat.len() as int);
    vstd::set_lib::lemma_int_range(0, stat.len() as int);
    vstd::set_lib::lemma_len_subset(closed_set(stat), r);
    vstd::set_lib::lemma_len_subset(open_set(stat), r);
    let u = closed_set(stat).union(open_set(stat));
    vstd::set_lib::lemma_len_subset(u, r);
    assert(closed_set(stat).disjoint(open_set(stat)));
    vstd::set_lib::lemma_set_disjoint_lens(closed_set(stat), open_set(stat));
}

/// Changing one cell's status moves it between the sets.
pub proof fn lemma_status_update(stat: Seq<u8>, v: int, b: u8)
    requires
        0 <= v < stat.len(),
    ensures
        closed_set(stat.update(v, b)) == if b == S_CLOSED {
            closed_set(stat).insert(v)
        } else {
            closed_set(stat).remove(v)
        },
        open_set(stat.update(v, b)) == if b == S_OPEN {
            open_set(stat).insert(v)
        } else {
            open_set(stat).remove(v)
        },
{
    assert(closed_set(stat.update(v, b)) =~= if b == S_CLOSED {
        closed_set(stat).insert(v)
    } else {
        closed_set(stat).remove(v)
    });
    assert(open_set(stat.update(v, b)) =~= if b == S_OPEN {
        open_set(stat).insert(v)
    } else {
        open_set(stat).remove(v)
    });
}

/// One directional search: its own frontier, scores, parents and status.
/// `rank` records when each cell was closed.
pub struct Search {
    heap: MinHeap,
    fifo: std::collections::VecDeque<QEntry>,
    lifo: Vec<QEntry>,
    g: Vec<u128>,
    parent: Vec<u32>,
    stat: Vec<u8>,
    /// Heuristic target: the goal for the forward search, the start for the
    /// reverse one.
    target: u32,
    rank: Ghost<Seq<int>>,
}

impl Search {
    fn new(total: usize, target: u32) -> (s: Search)
        ensures
            s.g@.len() == total,
            s.parent@.len() == total,
            s.stat@.len() == total,
            s.rank@.len() == total,
            forall|v: int| 0 <= v < total ==> #[trigger] s.stat@[v] == UNSEEN && s.parent@[v] == NO_PARENT
                && s.g@[v] == u128::MAX && s.rank@[v] == 0,
            s.target == target,
            s.heap.wf(),
            s.heap.view().len() == 0,
            s.fifo@.len() == 0,
            s.lifo@.len() == 0,
            s.state() == blank_search(total as int),
    {
        let s = Search {
            heap: MinHeap::new(),
            fifo: std::collections::VecDeque::new(),
            lifo: Vec::new(),
            g: vec![u128::MAX; total],
            parent: vec![NO_PARENT; total],
            stat: vec![UNSEEN; total],
            target,
            rank: Ghost(Seq::new(total as nat, |i: int| 0)),
        };
        proof {
            let b = blank_search(total as int);
            assert(s.g@ =~= b.3);
            assert(s.parent@ =~= b.4);
            assert(s.stat@ =~= b.5);
            assert(s.fifo@ =~= b.1);
            assert(s.lifo@ =~= b.2);
        }
        s
    }

    /// The members of the parent forest: closed cells and the origin.
    pub closed spec fn members(&self, origin: int) -> Set<int> {
        closed_set(self.stat@).insert(origin)
    }

    /// Everything about one search that holds between steps. `time` is the
    /// solver's expansion count. Mid-step, the frontier may lack the entry of
    /// the cell `hole` just taken from it, and the moves out of the cell
    /// `pending` just closed may not all be explored yet; between steps both
    /// are -1.
    #[verifier::opaque]
    pub closed spec fn inv(
        &self,
        dom: Domain,
        terrain: Seq<u8>,
        diagonals: bool,
        kind: u8,
        gw: int,
        hw: int,
        origin: int,
        target: int,
        time: int,
        hole: int,
        pending: int,
    ) -> bool {
        let size = dom.size();
        let stat = self.stat@;
        let g = self.g@;
        let parent = self.parent@;
        let rank = self.rank@;
        &&& g.len() == size
        &&& parent.len() == size
        &&& stat.len() == size
        &&& rank.len() == size
        &&& 0 <= origin < size
        &&& self.target == target
        &&& 0 <= target < size
        &&& forall|v: int| 0 <= v < size ==> #[trigger] stat[v] == UNSEEN || stat[v] == S_OPEN || stat[v] == S_CLOSED
        // Undiscovered cells have no score yet.
        &&& forall|v: int| 0 <= v < size && #[trigger] stat[v] == UNSEEN ==> g[v] == u128::MAX
        // The origin is discovered with score zero and no parent, and is the
        // first cell its search closes.
        &&& stat[origin] != UNSEEN
        &&& g[origin] == 0
        &&& parent[origin] == NO_PARENT
        &&& forall|v: int| 0 <= v < size && #[trigger] stat[v] == S_CLOSED ==> stat[origin] == S_CLOSED
        // Only passable cells besides the origin are ever discovered.
        &&& forall|v: int| 0 <= v < size && #[trigger] stat[v] != UNSEEN ==> v == origin || passable(dom, terrain, v)
        // For A* and Dijkstra, no walk reaches a closed cell for less than
        // its score.
        &&& kind == FR_PQ && gw == 2 && hw <= 2 ==> forall|v: int|
            0 <= v < size && #[trigger] stat[v] == S_CLOSED ==> least_cost_bound(dom, terrain, diagonals, origin, v, g[v] as int)
        // Closed cells form a parent forest ordered by closing time.
        &&& parent_forest(dom, terrain, diagonals, origin, parent, rank, self.members(origin))
        &&& forall|v: int| #[trigger] self.members(origin).contains(v) ==> rank[v] <= time
        // Scores stay below `time` maximal moves.
        &&& forall|v: int|
            0 <= v < size && (#[trigger] stat[v] == S_CLOSED || (kind != FR_LIFO && stat[v] == S_OPEN)) ==> g[v]
                <= time * MAX_STEP
        // Every move out of a closed cell leads to a discovered cell; the move
        // bounds the score of one still open.
        &&& forall|u: int, v: int|
            0 <= u < size && u != pending && #[trigger] stat[u] == S_CLOSED && #[trigger] edge(dom, terrain, u, v, diagonals) ==> {
                &&& 0 <= v < size
                &&& stat[v] != UNSEEN
                &&& kind == FR_PQ && stat[v] != S_CLOSED ==> g[v] <= g[u] + edge_cost(dom, terrain, u, v)
                &&& kind == FR_FIFO && stat[v] != S_CLOSED ==> g[v] <= g[u] + 1
            }
        // Discovered cells other than the origin hang off a closed cell.
        &&& kind != FR_LIFO ==> forall|v: int|
            0 <= v < size && #[trigger] stat[v] != UNSEEN && v != origin ==> {
                &&& parent[v] < size
                &&& stat[parent[v] as int] == S_CLOSED
                &&& edge(dom, terrain, parent[v] as int, v, diagonals)
                &&& kind == FR_PQ ==> g[v] >= g[parent[v] as int] + edge_cost(dom, terrain, parent[v] as int, v)
                &&& kind == FR_FIFO ==> g[v] == g[parent[v] as int] + 1
            }
        // The frontier structure in use holds every open cell.
        &&& kind == FR_PQ ==> {
            &&& self.heap.wf()
            &&& forall|n: Node| #[trigger] self.heap.view().contains(n) ==> {
                &&& n.idx < size
                &&& stat[n.idx as int] != UNSEEN
                &&& n.h == heuristic(dom, diagonals, n.idx as int, target)
                &&& n.f >= gw * g[n.idx as int] + hw * n.h
            }
            &&& forall|v: int|
                0 <= v < size && v != hole && #[trigger] stat[v] == S_OPEN ==> self.heap.view().contains(
                    entry_for(gw, hw, g[v] as int, heuristic(dom, diagonals, v, target), v),
                )
        }
        &&& kind == FR_FIFO ==> {
            &&& forall|i: int, j: int|
                0 <= i < j < self.fifo@.len() ==> #[trigger] self.fifo@[i].idx != #[trigger] self.fifo@[j].idx
            &&& forall|i: int|
                0 <= i < self.fifo@.len() ==> {
                    let e = #[trigger] self.fifo@[i];
                    &&& e.idx < size
                    &&& e.idx != hole
                    &&& stat[e.idx as int] == S_OPEN
                    &&& e.parent == parent[e.idx as int]
                    &&& e.g == g[e.idx as int]
                }
            &&& forall|v: int|
                0 <= v < size && v != hole && #[trigger] stat[v] == S_OPEN ==> exists|i: int|
                    0 <= i < self.fifo@.len() && #[trigger] self.fifo@[i].idx == v
            // Queued scores never decrease front to back and span one hop.
            &&& forall|i: int, j: int|
                0 <= i < j < self.fifo@.len() ==> #[trigger] self.fifo@[i].g <= #[trigger] self.fifo@[j].g
            &&& forall|i: int, j: int|
                0 <= i < self.fifo@.len() && 0 <= j < self.fifo@.len() ==> #[trigger] self.fifo@[j].g
                    <= #[trigger] self.fifo@[i].g + 1
            // Closed cells score no more than anything queued, nor than the
            // cell taken off the front or the cell being expanded.
            &&& forall|u: int, i: int|
                0 <= u < size && #[trigger] stat[u] == S_CLOSED && 0 <= i < self.fifo@.len() ==> g[u]
                    <= #[trigger] self.fifo@[i].g
            &&& 0 <= hole < size ==> {
                &&& forall|i: int|
                    0 <= i < self.fifo@.len() ==> g[hole] <= #[trigger] self.fifo@[i].g <= g[hole] + 1
                &&& forall|u: int| 0 <= u < size && #[trigger] stat[u] == S_CLOSED ==> g[u] <= g[hole]
            }
            &&& 0 <= pending < size ==> {
                &&& forall|i: int| 0 <= i < self.fifo@.len() ==> #[trigger] self.fifo@[i].g <= g[pending] + 1
                &&& forall|u: int| 0 <= u < size && #[trigger] stat[u] == S_CLOSED ==> g[u] <= g[pending]
            }
            // No walk reaches a closed cell in fewer moves than its score.
            &&& forall|u: int|
                0 <= u < size && #[trigger] stat[u] == S_CLOSED ==> hop_bound(dom, terrain, diagonals, origin, u, g[u] as int)
        }
        &&& kind == FR_LIFO ==> {
            &&& forall|i: int|
                0 <= i < self.lifo@.len() ==> {
                    let e = #[trigger] self.lifo@[i];
                    &&& e.idx < size
                    &&& stat[e.idx as int] != UNSEEN
                    &&& e.g <= time * MAX_STEP
                    &&& ((e.idx == origin && e.parent == NO_PARENT && e.g == 0) || (e.parent < size
                        && stat[e.parent as int] == S_CLOSED && edge(dom, terrain, e.parent as int, e.idx as int, diagonals)))
                }
            &&& forall|v: int|
                0 <= v < size && v != hole && #[trigger] stat[v] == S_OPEN ==> exists|i: int|
                    0 <= i < self.lifo@.len() && #[trigger] self.lifo@[i].idx == v
        }
    }
}

} // verus!

verus! {

/// The terrain as the searches treat it: a wall under an endpoint counts
/// as ground of weight 1.
pub open spec fn endpoints_freed(terrain: Seq<u8>, start: int, goal: int) -> Seq<u8> {
    Seq::new(terrain.len(), |i: int| if (i == start || i == goal) && terrain[i] == T_OBST { 1u8 } else { terrain[i] })
}

/// Lifting walls off endpoints that carry none changes nothing.
pub proof fn lemma_freed_unchanged(terrain: Seq<u8>, start: int, goal: int)
    requires
        0 <= start < terrain.len() ==> terrain[start] != T_OBST,
        0 <= goal < terrain.len() ==> terrain[goal] != T_OBST,
    ensures
        endpoints_freed(terrain, start, goal) == terrain,
{
    assert(endpoints_freed(terrain, start, goal) =~= terrain);
}

/// Every cell of `p` is passable or an endpoint.
pub open spec fn on_search_cells(dom: Domain, terrain: Seq<u8>, p: Seq<u32>, start: int, goal: int) -> bool {
    forall|i: int| 0 <= i < p.len() ==> #[trigger] passable(dom, terrain, p[i] as int) || p[i] == start || p[i] == goal
}

/// The search-state buffer only marks walls of the terrain, and only marks
/// passable cells or the endpoints as open, closed or on the path.
pub open spec fn cells_ok(dom: Domain, terrain: Seq<u8>, cells: Seq<u8>, start: int, goal: int) -> bool {
    &&& cells.len() == dom.size()
    &&& forall|i: int|
        0 <= i < cells.len() ==> {
            let c = #[trigger] cells[i];
            &&& c == FREE || c == OBST || c == OPEN || c == CLOSED || c == PATH
            &&& c == OBST ==> terrain[i] == T_OBST && i != start && i != goal
            &&& (c == OPEN || c == CLOSED || c == PATH) ==> passable(dom, terrain, i) || ((i == start || i == goal)
                && terrain[i] != T_VOID)
        }
}

/// What the buffer shows of a cell while no path is found: closed by a
/// search, else waiting on a frontier, else a wall off the endpoints, else
/// free.
pub open spec fn shade(fs: Seq<u8>, bs: Seq<u8>, two: bool, terrain: Seq<u8>, start: int, goal: int, i: int) -> u8 {
    if fs[i] == S_CLOSED || (two && bs[i] == S_CLOSED) {
        CLOSED
    } else if fs[i] == S_OPEN || (two && bs[i] == S_OPEN) {
        OPEN
    } else if terrain[i] == T_OBST && i != start && i != goal {
        OBST
    } else {
        FREE
    }
}

pub struct Solver {
    /// Shared viz buffer: FREE / OBST / OPEN / CLOSED / PATH per cell.
    cells: Vec<u8>,
    /// The search from the start, and for Bidirectional Swarm the one from
    /// the goal.
    fwd: Search,
    bwd: Search,
    two: bool,
    turn: usize,
    diagonals: bool,
    algo: u8,
    frontier_kind: u8,
    g_w: u128,
    h_w: u128,
    start: u32,
    goal: u32,
    expanded: u32,
    frontier: u32,
    done: bool,
    found: bool,
    cost: u128,
    path: Vec<u32>,
}

impl Solver {
    pub closed spec fn cells_spec(&self) -> Seq<u8> {
        self.cells@
    }

    pub closed spec fn path_spec(&self) -> Seq<u32> {
        self.path@
    }

    pub closed spec fn expanded_spec(&self) -> int {
        self.expanded as int
    }

    pub closed spec fn frontier_spec(&self) -> int {
        self.frontier as int
    }

    pub closed spec fn done_spec(&self) -> bool {
        self.done
    }

    pub closed spec fn found_spec(&self) -> bool {
        self.found
    }

    pub closed spec fn cost_spec(&self) -> int {
        self.cost as int
    }

    pub closed spec fn algo_spec(&self) -> u8 {
        self.algo
    }

    pub closed spec fn start_spec(&self) -> u32 {
        self.start
    }

    pub closed spec fn goal_spec(&self) -> u32 {
        self.goal
    }

    pub closed spec fn diagonals_spec(&self) -> bool {
        self.diagonals
    }

    /// The search resolved at construction: an endpoint on a void cell, or
    /// the start on the goal.
    pub open spec fn trivial(terrain: Seq<u8>, start: u32, goal: u32) -> bool {
        terrain[start as int] == T_VOID || terrain[goal as int] == T_VOID || start == goal
    }

    #[verifier::opaque]
    pub closed spec fn searching_inv(&self, dom: Domain, terrain: Seq<u8>) -> bool {
        let kind = self.frontier_kind;
        let (gw, hw) = (self.g_w as int, self.h_w as int);
        let t = self.expanded as int;
        &&& self.fwd.inv(dom, terrain, self.diagonals, kind, gw, hw, self.start as int, self.goal as int, t, -1, -1)
        &&& self.two ==> self.bwd.inv(dom, terrain, self.diagonals, kind, gw, hw, self.goal as int, self.start as int, t, -1, -1)
        &&& !self.found
        &&& self.expanded == closed_set(self.fwd.stat@).len() + if self.two {
            closed_set(self.bwd.stat@).len() as int
        } else {
            0
        }
        &&& self.frontier == open_set(self.fwd.stat@).len() + if self.two {
            open_set(self.bwd.stat@).len() as int
        } else {
            0
        }
        &&& if self.two {
            closed_set(self.fwd.stat@).disjoint(closed_set(self.bwd.stat@))
        } else {
            !closed_set(self.fwd.stat@).contains(self.goal as int)
        }
        &&& self.done ==> open_set(self.fwd.stat@).len() == 0 && (self.two ==> open_set(self.bwd.stat@).len() == 0)
    }

    /// Everything that holds of a solver between calls, over the domain and
    /// terrain it searches.
    pub closed spec fn inv(&self, dom: Domain, terrain: Seq<u8>) -> bool {
        let size = dom.size();
        &&& dom.wf()
        &&& terrain.len() == size
        &&& self.start < size
        &&& self.goal < size
        &&& self.algo <= ALGO_DFS
        &&& self.frontier_kind == frontier_kind_of(self.algo)
        &&& (self.g_w as int, self.h_w as int) == weights_of(self.algo)
        &&& self.two == (self.algo == ALGO_BISWARM)
        &&& self.turn < if self.two { 2usize } else { 1usize }
        &&& cells_ok(dom, terrain, self.cells@, self.start as int, self.goal as int)
        &&& self.found ==> self.done
        &&& self.found ==> {
            &&& is_route(dom, endpoints_freed(terrain, self.start as int, self.goal as int), self.path@, self.start, self.goal, self.diagonals)
            &&& on_search_cells(dom, terrain, self.path@, self.start as int, self.goal as int)
            &&& path_cost_spec(dom, terrain, self.path@) == Some(self.cost as int)
        }
        &&& self.found && (self.algo == ALGO_ASTAR || self.algo == ALGO_DIJKSTRA) ==> least_cost_bound(
            dom,
            terrain,
            self.diagonals,
            self.start as int,
            self.goal as int,
            self.cost as int,
        )
        &&& self.found && self.algo == ALGO_BFS ==> hop_bound(
            dom,
            terrain,
            self.diagonals,
            self.start as int,
            self.goal as int,
            self.path@.len() - 1,
        )
        &&& !self.found ==> self.path@.len() == 0
        &&& !self.found ==> forall|i: int|
            0 <= i < size ==> #[trigger] self.cells@[i] == shade(
                self.fwd.stat@,
                self.bwd.stat@,
                self.two,
                terrain,
                self.start as int,
                self.goal as int,
                i,
            )
        &&& self.found ==> forall|i: int| 0 <= i < size ==> (#[trigger] self.cells@[i] == PATH <==> self.path@.contains(i as u32))
        &&& if Self::trivial(terrain, self.start, self.goal) {
            &&& self.done
            &&& self.found <==> terrain[self.start as int] != T_VOID && terrain[self.goal as int] != T_VOID
        } else {
            !self.found ==> self.searching_inv(dom, terrain)
        }
    }
}

} // verus!

verus! {

/// A search before anything is seeded over `n` cells: every cell unseen,
/// without a parent, at infinite cost, and empty frontiers.
pub open spec fn blank_search(n: int) -> SearchState {
    (
        Multiset::empty(),
        Seq::empty(),
        Seq::empty(),
        Seq::new(n as nat, |i: int| u128::MAX),
        Seq::new(n as nat, |i: int| NO_PARENT),
        Seq::new(n as nat, |i: int| UNSEEN),
    )
}

/// `st` with `origin` put on the frontier of the given kind at cost zero,
/// scored by the heuristic toward `target` with doubled weight `hw`.
pub open spec fn seeded(
    st: SearchState,
    dom: Domain,
    diagonals: bool,
    kind: u8,
    hw: int,
    origin: u32,
    target: u32,
) -> SearchState {
    let h = heuristic(dom, diagonals, origin as int, target as int);
    let e = QEntry { idx: origin, parent: NO_PARENT, g: 0 };
    (
        if kind == FR_PQ {
            st.0.insert(Node { f: (hw * h) as u128, h: h as u128, idx: origin })
        } else {
            st.0
        },
        if kind == FR_FIFO {
            st.1.push(e)
        } else {
            st.1
        },
        if kind == FR_LIFO {
            st.2.push(e)
        } else {
            st.2
        },
        st.3.update(origin as int, 0),
        st.4,
        st.5.update(origin as int, S_OPEN),
    )
}

impl Search {
    /// Put the origin on the frontier with score zero.
    fn seed(
        &mut self,
        dom: &Domain,
        terrain: &[u8],
        diagonals: bool,
        kind: u8,
        gw: u128,
        hw: u128,
        origin: u32,
    )
        requires
            dom.wf(),
            terrain@.len() == dom.size(),
            origin < dom.size(),
            old(self).target < dom.size(),
            kind == FR_PQ || kind == FR_FIFO || kind == FR_LIFO,
            gw <= 2,
            hw <= 6,
            old(self).g@.len() == dom.size(),
            old(self).parent@.len() == dom.size(),
            old(self).stat@.len() == dom.size(),
            old(self).rank@.len() == dom.size(),
            forall|v: int| 0 <= v < dom.size() ==> #[trigger] old(self).stat@[v] == UNSEEN && old(self).parent@[v]
                == NO_PARENT && old(self).rank@[v] == 0 && old(self).g@[v] == u128::MAX,
            old(self).heap.wf(),
            old(self).heap.view().len() == 0,
            old(self).fifo@.len() == 0,
            old(self).lifo@.len() == 0,
        ensures
            final(self).inv(
                *dom,
                terrain@,
                diagonals,
                kind,
                gw as int,
                hw as int,
                origin as int,
                old(self).target as int,
                0,
                -1,
                -1,
            ),
            closed_set(final(self).stat@) == Set::<int>::empty(),
            open_set(final(self).stat@) == set![origin as int],
            final(self).stat@ == old(self).stat@.update(origin as int, S_OPEN),
            final(self).state() == seeded(old(self).state(), *dom, diagonals, kind, hw as int, origin, old(self).target),
            final(self).target == old(self).target,
    {
        let h = heuristic_exec(dom, diagonals, origin, self.target);
        self.g.set(origin as usize, 0);
        self.stat.set(origin as usize, S_OPEN);
        if kind == FR_PQ {
            proof {
                assert(gw * 0 + hw * h <= 6 * (3 * 0x8000_0000 * SQRT_3)) by (nonlinear_arith)
                    requires
                        hw <= 6,
                        h <= 3 * 0x8000_0000 * SQRT_3,
                ;
            }
            let n = Node { f: gw * 0 + hw * h, h, idx: origin };
            self.heap.push(n);
            proof {
                assert(self.heap.view().contains(n));
            }
        } else if kind == FR_FIFO {
            self.fifo.push_back(QEntry { idx: origin, parent: NO_PARENT, g: 0 });
        } else {
            self.lifo.push(QEntry { idx: origin, parent: NO_PARENT, g: 0 });
        }
        proof {
            broadcast use vstd::multiset::group_multiset_axioms;
            reveal(Search::inv);
            let stat = self.stat@;
            assert(closed_set(stat) =~= Set::<int>::empty());
            assert(open_set(stat) =~= set![origin as int]);
            assert(self.members(origin as int) =~= set![origin as int]);
            if kind == FR_FIFO {
                assert(self.fifo@[0].idx == origin);
            }
            if kind == FR_LIFO {
                assert(self.lifo@[0].idx == origin);
            }
            let o = origin as int;
            assert(old(self).stat@[o] == UNSEEN);
            assert(self.members(o).contains(o));
            assert(self.parent@[o] == u32::MAX);
            assert(self.rank@[o] == 0);
            assert(forall|v: int| #[trigger] self.members(o).contains(v) ==> 0 <= v < dom.size());
            assert(parent_forest(*dom, terrain@, diagonals, o, self.parent@, self.rank@, self.members(o)));
            assert(forall|v: int| 0 <= v < dom.size() && #[trigger] stat[v] != UNSEEN ==> v == o);
            assert(forall|u: int, v: int|
                0 <= u < dom.size() && #[trigger] stat[u] == S_CLOSED && #[trigger] edge(*dom, terrain@, u, v, diagonals) ==> false);
            if kind == FR_PQ {
                assert forall|n: Node| #[trigger] self.heap.view().contains(n) implies {
                    &&& n.idx < dom.size()
                    &&& stat[n.idx as int] != UNSEEN
                    &&& n.h == heuristic(*dom, diagonals, n.idx as int, self.target as int)
                    &&& n.f >= gw * self.g@[n.idx as int] + hw * n.h
                } by {
                    assert(self.heap.view() =~= Multiset::empty().insert(Node { f: (hw * h) as u128, h, idx: origin }));
                }
            }
        }
    }
}

} // verus!

verus! {

fn initial_buffer(dom: &Domain, terrain: &[u8], start: u32, goal: u32) -> (cells: Vec<u8>)
    requires
        dom.wf(),
        terrain@.len() == dom.size(),
        start < dom.size(),
        goal < dom.size(),
    ensures
        cells@.len() == dom.size(),
        forall|i: int| 0 <= i < dom.size() ==> #[trigger] cells@[i] == initial_cells(terrain@, start as int, goal as int, i),
{
    let total = dom.total();
    let mut cells: Vec<u8> = vec![FREE; total];
    let mut i: usize = 0;
    while i < total
        invariant
            total == dom.size(),
            terrain@.len() == total,
            cells@.len() == total,
            i <= total,
            forall|j: int|
                0 <= j < total ==> #[trigger] cells@[j] == if j < i && terrain@[j] == T_OBST {
                    OBST
                } else {
                    FREE
                },
        decreases total - i,
    {
        if terrain[i] == T_OBST {
            cells.set(i, OBST);
        }
        i += 1;
    }
    cells.set(start as usize, FREE);
    cells.set(goal as usize, FREE);
    cells
}

/// The initial search-state buffer: walls marked, except on the endpoints.
pub open spec fn initial_cells(terrain: Seq<u8>, start: int, goal: int, i: int) -> u8 {
    if terrain[i] == T_OBST && i != start && i != goal {
        OBST
    } else {
        FREE
    }
}

/// The state of a search built from `start` to `goal` over `terrain` with
/// the given adjacency and algorithm, before its first step. An endpoint
/// on a void cell leaves it done without a path, the start on the goal
/// done with the one-cell path; otherwise the start, and for the
/// two-sided search the goal, sit on their frontiers.
pub open spec fn fresh_state(dom: Domain, terrain: Seq<u8>, start: u32, goal: u32, diagonals: bool, algo: u8) -> SolverState {
    let n = dom.size();
    let two = algo == ALGO_BISWARM;
    let kind = frontier_kind_of(algo);
    let hw = weights_of(algo).1;
    let cells = Seq::new(n as nat, |i: int| initial_cells(terrain, start as int, goal as int, i));
    let fwd0 = blank_search(n);
    let bwd0 = blank_search(
        if two {
            n
        } else {
            0
        },
    );
    if terrain[start as int] == T_VOID || terrain[goal as int] == T_VOID {
        (cells, fwd0, bwd0, 0usize, 0u32, 0u32, true, false, 0u128, Seq::empty())
    } else if start == goal {
        (cells.update(start as int, PATH), fwd0, bwd0, 0usize, 0u32, 0u32, true, true, 0u128, seq![start])
    } else if two {
        (
            cells.update(start as int, OPEN).update(goal as int, OPEN),
            seeded(fwd0, dom, diagonals, kind, hw, start, goal),
            seeded(bwd0, dom, diagonals, kind, hw, goal, start),
            0usize,
            0u32,
            2u32,
            false,
            false,
            0u128,
            Seq::empty(),
        )
    } else {
        (
            cells.update(start as int, OPEN),
            seeded(fwd0, dom, diagonals, kind, hw, start, goal),
            bwd0,
            0usize,
            0u32,
            1u32,
            false,
            false,
            0u128,
            Seq::empty(),
        )
    }
}

/// The terrain a search runs over: the given one with walls under the
/// endpoints lifted to weight-1 ground.
fn freed_copy(terrain: &[u8], start: u32, goal: u32) -> (t: Vec<u8>)
    ensures
        t@ == endpoints_freed(terrain@, start as int, goal as int),
{
    let mut t: Vec<u8> = Vec::new();
    let mut i: usize = 0;
    while i < terrain.len()
        invariant
            i <= terrain@.len(),
            t@ == terrain@.subrange(0, i as int),
        decreases terrain@.len() - i,
    {
        t.push(terrain[i]);
        proof {
            assert(t@ =~= terrain@.subrange(0, i + 1));
        }
        i += 1;
    }
    proof {
        assert(t@ =~= terrain@);
    }
    crate::terrain::free_endpoints(&mut t, start, goal);
    proof {
        assert(t@ =~= endpoints_freed(terrain@, start as int, goal as int));
    }
    t
}

impl Solver {
    /// A search from `start` to `goal`, which must be in-bounds cell
    /// indices. An endpoint on a void cell reports "no path" immediately; an
    /// endpoint on an obstacle is treated as free: the search runs over the
    /// terrain with walls under the endpoints lifted to weight-1 ground.
    pub fn new(dom: &Domain, terrain: &[u8], start: u32, goal: u32, diagonals: bool, algo: u8) -> (s: Solver)
        requires
            dom.wf(),
            terrain@.len() == dom.size(),
            start < dom.size(),
            goal < dom.size(),
            algo <= ALGO_DFS,
        ensures
            s.inv(*dom, endpoints_freed(terrain@, start as int, goal as int)),
            s.algo_spec() == algo,
            s.start_spec() == start,
            s.goal_spec() == goal,
            s.diagonals_spec() == diagonals,
            s.expanded_spec() == 0,
            s.done_spec() == Self::trivial(terrain@, start, goal),
            s.found_spec() == (start == goal && terrain@[start as int] != T_VOID),
            s.found_spec() ==> s.path_spec() == seq![start] && s.cost_spec() == 0,
            !s.found_spec() ==> s.path_spec().len() == 0,
            !Self::trivial(terrain@, start, goal) ==> s.frontier_spec() == if algo == ALGO_BISWARM {
                2int
            } else {
                1int
            },
            forall|i: int|
                0 <= i < dom.size() && i != start && (algo == ALGO_BISWARM ==> i != goal) ==> #[trigger] s.cells_spec()[i]
                    == initial_cells(terrain@, start as int, goal as int, i),
            s.state() == fresh_state(*dom, terrain@, start, goal, diagonals, algo),
    {
        let ft = freed_copy(terrain, start, goal);
        let s = Self::new_over(dom, &ft, start, goal, diagonals, algo);
        proof {
            let t = terrain@;
            assert(Self::trivial(ft@, start, goal) == Self::trivial(t, start, goal));
            assert forall|i: int| 0 <= i < dom.size() implies initial_cells(ft@, start as int, goal as int, i) == initial_cells(
                t,
                start as int,
                goal as int,
                i,
            ) by {}
            if !s.found_spec() {
                s.lemma_no_path_empty(*dom, ft@);
            }
            let c1 = Seq::new(dom.size() as nat, |i: int| initial_cells(ft@, start as int, goal as int, i));
            let c2 = Seq::new(dom.size() as nat, |i: int| initial_cells(t, start as int, goal as int, i));
            assert(c1 =~= c2);
            assert(fresh_state(*dom, ft@, start, goal, diagonals, algo) == fresh_state(*dom, t, start, goal, diagonals, algo));
        }
        s
    }

    /// The search over terrain whose endpoints are already free.
    fn new_over(dom: &Domain, terrain: &[u8], start: u32, goal: u32, diagonals: bool, algo: u8) -> (s: Solver)
        requires
            dom.wf(),
            terrain@.len() == dom.size(),
            start < dom.size(),
            goal < dom.size(),
            algo <= ALGO_DFS,
        ensures
            s.inv(*dom, terrain@),
            s.algo_spec() == algo,
            s.start_spec() == start,
            s.goal_spec() == goal,
            s.diagonals_spec() == diagonals,
            s.expanded_spec() == 0,
            s.done_spec() == Self::trivial(terrain@, start, goal),
            s.found_spec() == (start == goal && terrain@[start as int] != T_VOID),
            s.found_spec() ==> s.path_spec() == seq![start] && s.cost_spec() == 0,
            !Self::trivial(terrain@, start, goal) ==> s.frontier_spec() == if algo == ALGO_BISWARM {
                2int
            } else {
                1int
            },
            forall|i: int|
                0 <= i < dom.size() && i != start && (algo == ALGO_BISWARM ==> i != goal) ==> #[trigger] s.cells_spec()[i]
                    == initial_cells(terrain@, start as int, goal as int, i),
            s.state() == fresh_state(*dom, terrain@, start, goal, diagonals, algo),
    {
        let total = dom.total();
        let cells = initial_buffer(dom, terrain, start, goal);
        let (frontier_kind, g_w, h_w): (u8, u128, u128) = if algo == ALGO_ASTAR {
            (FR_PQ, 2, 2)
        } else if algo == ALGO_DIJKSTRA {
            (FR_PQ, 2, 0)
        } else if algo == ALGO_GREEDY {
            (FR_PQ, 0, 2)
        } else if algo == ALGO_SWARM {
            (FR_PQ, 2, 3)
        } else if algo == ALGO_CONVERGENT {
            (FR_PQ, 2, 6)
        } else if algo == ALGO_BISWARM {
            (FR_PQ, 2, 3)
        } else if algo == ALGO_BFS {
            (FR_FIFO, 2, 0)
        } else {
            (FR_LIFO, 2, 0)
        };
        let two = algo == ALGO_BISWARM;
        let fwd = Search::new(total, goal);
        let bwd = Search::new(if two { total } else { 0 }, start);
        let mut s = Solver {
            cells,
            fwd,
            bwd,
            two,
            turn: 0,
            diagonals,
            algo,
            frontier_kind,
            g_w,
            h_w,
            start,
            goal,
            expanded: 0,
            frontier: 0,
            done: false,
            found: false,
            cost: 0,
            path: Vec::new(),
        };
        proof {
            let c0 = Seq::new(dom.size() as nat, |i: int| initial_cells(terrain@, start as int, goal as int, i));
            assert(s.cells@ =~= c0);
            assert(s.path@ =~= Seq::<u32>::empty());
        }
        if terrain[start as usize] == T_VOID || terrain[goal as usize] == T_VOID {
            s.done = true;
            proof {
                assert forall|i: int| 0 <= i < dom.size() implies #[trigger] s.cells@[i] == shade(
                    s.fwd.stat@,
                    s.bwd.stat@,
                    two,
                    terrain@,
                    start as int,
                    goal as int,
                    i,
                ) by {
                    assert(s.fwd.stat@[i] == UNSEEN);
                    if two {
                        assert(s.bwd.stat@[i] == UNSEEN);
                    }
                }
            }
            return s;
        }
        if start == goal {
            s.done = true;
            s.found = true;
            s.cost = 0;
            s.path = vec![start];
            s.cells.set(start as usize, PATH);
            proof {
                assert(s.path@ =~= seq![start]);
                let c0 = Seq::new(dom.size() as nat, |i: int| initial_cells(terrain@, start as int, goal as int, i));
                assert(s.cells@ =~= c0.update(start as int, PATH));
                assert forall|i: int| 0 <= i < dom.size() implies (#[trigger] s.cells@[i] == PATH <==> s.path@.contains(
                    i as u32,
                )) by {
                    if s.path@.contains(i as u32) {
                        assert(s.path@[0] == start);
                    }
                }
                assert(path_cost_spec(*dom, terrain@, s.path@) == Some(0int));
                assert(open_cell(endpoints_freed(terrain@, start as int, goal as int), s.path@[0] as int));
                assert forall|p: Seq<u32>| #[trigger] is_walk(*dom, terrain@, p, diagonals) && p[0] == start && p.last() == goal
                    implies 0 <= p.len() - 1 by {}
                assert forall|p: Seq<u32>| #[trigger] is_walk(*dom, terrain@, p, diagonals) && p[0] == start && p.last() == goal
                    implies 0 <= walk_cost(*dom, terrain@, p) by {
                    assert(p.subrange(0, p.len() as int) =~= p);
                    lemma_prefix_monotone(*dom, terrain@, p, diagonals, 1, p.len() as int);
                }
            }
            return s;
        }
        proof {
            if two {
                assert(s.bwd.g@.len() == dom.size());
                assert(forall|v: int| 0 <= v < dom.size() ==> #[trigger] s.bwd.stat@[v] == UNSEEN
                    && s.bwd.parent@[v] == NO_PARENT && s.bwd.rank@[v] == 0 && s.bwd.g@[v] == u128::MAX);
                assert(s.bwd.heap.wf());
                assert(s.bwd.heap.view().len() == 0);
                assert(s.bwd.fifo@.len() == 0);
                assert(s.bwd.lifo@.len() == 0);
                assert(s.bwd.parent@.len() == dom.size());
                assert(s.bwd.rank@.len() == dom.size());
                assert(s.bwd.stat@.len() == dom.size());
            }
        }
        let ghost c0 = s.cells@;
        s.start_searches(dom, terrain);
        proof {
            if two {
                assert(s.cells@ =~= c0.update(start as int, OPEN).update(goal as int, OPEN));
            } else {
                assert(s.cells@ =~= c0.update(start as int, OPEN));
            }
        }
        s
    }
}


impl Solver {
    /// Put the origins on their frontiers.
    fn start_searches(&mut self, dom: &Domain, terrain: &[u8])
        requires
            dom.wf(),
            terrain@.len() == dom.size(),
            old(self).start < dom.size(),
            old(self).goal < dom.size(),
            old(self).start != old(self).goal,
            terrain@[old(self).start as int] != T_VOID,
            terrain@[old(self).goal as int] != T_VOID,
            old(self).algo <= ALGO_DFS,
            old(self).frontier_kind == frontier_kind_of(old(self).algo),
            (old(self).g_w as int, old(self).h_w as int) == weights_of(old(self).algo),
            old(self).two == (old(self).algo == ALGO_BISWARM),
            old(self).expanded == 0,
            old(self).frontier == 0,
            !old(self).done,
            !old(self).found,
            old(self).fwd.target == old(self).goal,
            old(self).bwd.target == old(self).start,
            forall|i: int| 0 <= i < dom.size() ==> #[trigger] old(self).cells@[i] == initial_cells(
                terrain@,
                old(self).start as int,
                old(self).goal as int,
                i,
            ),
            old(self).cells@.len() == dom.size(),
            old(self).fwd.g@.len() == dom.size(),
            old(self).fwd.parent@.len() == dom.size(),
            old(self).fwd.stat@.len() == dom.size(),
            old(self).fwd.rank@.len() == dom.size(),
            forall|v: int| 0 <= v < dom.size() ==> #[trigger] old(self).fwd.stat@[v] == UNSEEN && old(self).fwd.parent@[v]
                == NO_PARENT && old(self).fwd.rank@[v] == 0 && old(self).fwd.g@[v] == u128::MAX,
            old(self).fwd.heap.wf(),
            old(self).fwd.heap.view().len() == 0,
            old(self).fwd.fifo@.len() == 0,
            old(self).fwd.lifo@.len() == 0,
            old(self).two ==> {
                &&& old(self).bwd.g@.len() == dom.size()
                &&& old(self).bwd.parent@.len() == dom.size()
                &&& old(self).bwd.stat@.len() == dom.size()
                &&& old(self).bwd.rank@.len() == dom.size()
                &&& forall|v: int| 0 <= v < dom.size() ==> #[trigger] old(self).bwd.stat@[v] == UNSEEN
                    && old(self).bwd.parent@[v] == NO_PARENT && old(self).bwd.rank@[v] == 0 && old(self).bwd.g@[v]
                    == u128::MAX
                &&& old(self).bwd.heap.wf()
                &&& old(self).bwd.heap.view().len() == 0
                &&& old(self).bwd.fifo@.len() == 0
                &&& old(self).bwd.lifo@.len() == 0
            },
        ensures
            final(self).searching_inv(*dom, terrain@),
            final(self).frontier == if final(self).two { 2u32 } else { 1u32 },
            final(self).cells@.len() == dom.size(),
            forall|i: int|
                0 <= i < dom.size() && i != final(self).start && (final(self).two ==> i != final(self).goal)
                    ==> #[trigger] final(self).cells@[i] == old(self).cells@[i],
            forall|i: int|
                0 <= i < dom.size() && (i == final(self).start || (final(self).two && i == final(self).goal))
                    ==> #[trigger] final(self).cells@[i] == OPEN,
            final(self).start == old(self).start,
            final(self).goal == old(self).goal,
            final(self).algo == old(self).algo,
            final(self).two == old(self).two,
            final(self).diagonals == old(self).diagonals,
            final(self).frontier_kind == old(self).frontier_kind,
            final(self).g_w == old(self).g_w,
            final(self).h_w == old(self).h_w,
            final(self).expanded == 0,
            final(self).turn == old(self).turn,
            !final(self).done,
            !final(self).found,
            final(self).path@ == old(self).path@,
            final(self).cost == old(self).cost,
            final(self).fwd.state() == seeded(old(self).fwd.state(), *dom, old(self).diagonals, old(self).frontier_kind,
                old(self).h_w as int, old(self).start, old(self).goal),
            old(self).two ==> final(self).bwd.state() == seeded(old(self).bwd.state(), *dom, old(self).diagonals,
                old(self).frontier_kind, old(self).h_w as int, old(self).goal, old(self).start),
            !old(self).two ==> final(self).bwd.state() == old(self).bwd.state(),
            forall|i: int|
                0 <= i < dom.size() ==> #[trigger] final(self).cells@[i] == shade(
                    final(self).fwd.stat@,
                    final(self).bwd.stat@,
                    final(self).two,
                    terrain@,
                    final(self).start as int,
                    final(self).goal as int,
                    i,
                ),
    {
        let (kind, gw, hw) = (self.frontier_kind, self.g_w, self.h_w);
        self.fwd.seed(dom, terrain, self.diagonals, kind, gw, hw, self.start);
        self.frontier = 1;
        let st = self.start as usize;
        if self.cells[st] == FREE {
            self.cells.set(st, OPEN);
        }
        if self.two {
            self.bwd.seed(dom, terrain, self.diagonals, kind, gw, hw, self.goal);
            self.frontier = 2;
            let gl = self.goal as usize;
            if self.cells[gl] == FREE {
                self.cells.set(gl, OPEN);
            }
        }
        proof {
            broadcast use vstd::set::group_set_axioms;
            reveal(Solver::searching_inv);
            assert(set![self.start as int].len() == 1);
            assert(set![self.goal as int].len() == 1);
            assert(Set::<int>::empty().len() == 0);
            assert(closed_set(self.fwd.stat@).disjoint(closed_set(self.bwd.stat@)) || !self.two);
            assert forall|i: int| 0 <= i < dom.size() implies #[trigger] self.cells@[i] == shade(
                self.fwd.stat@,
                self.bwd.stat@,
                self.two,
                terrain@,
                self.start as int,
                self.goal as int,
                i,
            ) by {
                assert(old(self).cells@[i] == initial_cells(terrain@, old(self).start as int, old(self).goal as int, i));
                assert(old(self).fwd.stat@[i] == UNSEEN);
                if self.two {
                    assert(old(self).bwd.stat@[i] == UNSEEN);
                }
            }
        }
    }
}

} // verus!

verus! {

/// What a search's next moves depend on: the heap's entries, the queue, the
/// stack, scores, parents and statuses.
pub type SearchState = (Multiset<Node>, Seq<QEntry>, Seq<QEntry>, Seq<u128>, Seq<u32>, Seq<u8>);

/// The entry a heap pops first.
pub open spec fn least(h: Multiset<Node>) -> Node {
    choose|n: Node| h.contains(n) && forall|m: Node| h.contains(m) ==> node_le(n, m)
}

/// An entry ordered before every entry of the heap is the one it pops.
proof fn lemma_least(h: Multiset<Node>, n: Node)
    requires
        h.contains(n),
        forall|m: Node| h.contains(m) ==> node_le(n, m),
    ensures
        least(h) == n,
{
    let l = least(h);
    assert(h.contains(l) && forall|m: Node| h.contains(m) ==> node_le(l, m));
    crate::heap::lemma_pop_determined(h, n, l);
}

/// Popping the heap until an entry of a cell still open comes off.
pub open spec fn pop_pq(h: Multiset<Node>, stat: Seq<u8>, fuel: nat) -> (Option<u32>, Multiset<Node>)
    decreases fuel,
{
    if fuel == 0 || h.len() == 0 {
        (None, h)
    } else if stat[least(h).idx as int] == S_OPEN {
        (Some(least(h).idx), h.remove(least(h)))
    } else {
        pop_pq(h.remove(least(h)), stat, (fuel - 1) as nat)
    }
}

/// Popping the stack until an entry of a cell not yet closed comes off.
pub open spec fn pop_stack(l: Seq<QEntry>, stat: Seq<u8>) -> (Option<QEntry>, Seq<QEntry>)
    decreases l.len(),
{
    if l.len() == 0 {
        (None, l)
    } else if stat[l.last().idx as int] != S_CLOSED {
        (Some(l.last()), l.drop_last())
    } else {
        pop_stack(l.drop_last(), stat)
    }
}

/// The entry a search takes next, and its state after.
pub open spec fn pop_state(st: SearchState, kind: u8) -> (Option<QEntry>, SearchState) {
    let (h, q, l, g, parent, stat) = st;
    if kind == FR_PQ {
        let r = pop_pq(h, stat, h.len());
        (
            match r.0 {
                Some(i) => Some(QEntry { idx: i, parent: parent[i as int], g: g[i as int] }),
                None => None,
            },
            (r.1, q, l, g, parent, stat),
        )
    } else if kind == FR_FIFO {
        if q.len() == 0 {
            (None, st)
        } else {
            (Some(q[0]), (h, q.drop_first(), l, g, parent, stat))
        }
    } else {
        let r = pop_stack(l, stat);
        (r.0, (h, q, r.1, g, parent, stat))
    }
}

/// A search's state after closing the entry `e`: the cell is closed, and a
/// stack entry commits the branch it came from.
pub open spec fn close_state(st: SearchState, kind: u8, e: QEntry) -> SearchState {
    let (h, q, l, g, parent, stat) = st;
    let u = e.idx as int;
    (
        h,
        q,
        l,
        if kind == FR_LIFO { g.update(u, e.g) } else { g },
        if kind == FR_LIFO { parent.update(u, e.parent) } else { parent },
        stat.update(u, S_CLOSED),
    )
}

/// The buffer with `v` shown on the frontier, unless it shows something
/// else already.
pub open spec fn shown_open(cells: Seq<u8>, v: int) -> Seq<u8> {
    if cells[v] == FREE {
        cells.update(v, OPEN)
    } else {
        cells
    }
}

/// Offering `v` from the closed cell `u` by a move of base cost `c`: the
/// state and buffer after, and whether `v` was discovered.
pub open spec fn relax_state(
    st: SearchState,
    cells: Seq<u8>,
    dom: Domain,
    terrain: Seq<u8>,
    diagonals: bool,
    target: int,
    kind: u8,
    gw: int,
    hw: int,
    u: int,
    v: int,
    c: int,
) -> (SearchState, Seq<u8>, bool) {
    let (h, q, l, g, parent, stat) = st;
    let fresh = stat[v] == UNSEEN;
    if kind == FR_PQ {
        let ng = g[u] + c * terrain[v];
        if ng < g[v] {
            let node = entry_for(gw, hw, ng, heuristic(dom, diagonals, v, target), v);
            (
                (
                    h.insert(node),
                    q,
                    l,
                    g.update(v, ng as u128),
                    parent.update(v, u as u32),
                    if fresh { stat.update(v, S_OPEN) } else { stat },
                ),
                if fresh { shown_open(cells, v) } else { cells },
                fresh,
            )
        } else {
            (st, cells, false)
        }
    } else if kind == FR_FIFO {
        if fresh {
            let e = QEntry { idx: v as u32, parent: u as u32, g: (g[u] + 1) as u128 };
            (
                (h, q.push(e), l, g.update(v, (g[u] + 1) as u128), parent.update(v, u as u32), stat.update(v, S_OPEN)),
                shown_open(cells, v),
                true,
            )
        } else {
            (st, cells, false)
        }
    } else {
        let e = QEntry { idx: v as u32, parent: u as u32, g: (g[u] + 1) as u128 };
        (
            (h, q, l.push(e), g, parent, if fresh { stat.update(v, S_OPEN) } else { stat }),
            if fresh { shown_open(cells, v) } else { cells },
            fresh,
        )
    }
}

/// Stencil move `j` out of the closed cell `u`: relaxed when it reaches a
/// passable cell not yet closed, else nothing.
spec fn offer_state(
    st: SearchState,
    cells: Seq<u8>,
    dom: Domain,
    terrain: Seq<u8>,
    diagonals: bool,
    target: int,
    kind: u8,
    gw: int,
    hw: int,
    u: u32,
    j: int,
) -> (SearchState, Seq<u8>, bool) {
    match offered(dom, terrain, u, j, diagonals) {
        Some((v, c)) => if st.5[v] != S_CLOSED {
            relax_state(st, cells, dom, terrain, diagonals, target, kind, gw, hw, u as int, v, c)
        } else {
            (st, cells, false)
        },
        None => (st, cells, false),
    }
}

/// The first `j` stencil moves out of `u`, with the count of cells they
/// discover.
spec fn expand_state(
    st: SearchState,
    cells: Seq<u8>,
    dom: Domain,
    terrain: Seq<u8>,
    diagonals: bool,
    target: int,
    kind: u8,
    gw: int,
    hw: int,
    u: u32,
    j: nat,
) -> (SearchState, Seq<u8>, int)
    decreases j,
{
    if j == 0 {
        (st, cells, 0)
    } else {
        let r = expand_state(st, cells, dom, terrain, diagonals, target, kind, gw, hw, u, (j - 1) as nat);
        let o = offer_state(r.0, r.1, dom, terrain, diagonals, target, kind, gw, hw, u, j - 1);
        (o.0, o.1, r.2 + if o.2 { 1int } else { 0 })
    }
}

impl Search {
    pub closed spec fn state(&self) -> SearchState {
        (self.heap.view(), self.fifo@, self.lifo@, self.g@, self.parent@, self.stat@)
    }
}

impl Search {
    /// Take the next closable entry off the frontier, skipping stale ones.
    /// For the stack the entry carries the branch it came from.
    fn pop_valid(
        &mut self,
        kind: u8,
        Ghost(dom): Ghost<Domain>,
        Ghost(terrain): Ghost<Seq<u8>>,
        Ghost(diagonals): Ghost<bool>,
        Ghost(gw): Ghost<int>,
        Ghost(hw): Ghost<int>,
        Ghost(origin): Ghost<int>,
        Ghost(target): Ghost<int>,
        Ghost(time): Ghost<int>,
    ) -> (r: Option<QEntry>)
        requires
            dom.wf(),
            kind == FR_PQ || kind == FR_FIFO || kind == FR_LIFO,
            0 <= gw <= 2,
            0 <= hw <= 6,
            old(self).inv(dom, terrain, diagonals, kind, gw, hw, origin, target, time, -1, -1),
        ensures
            (r, final(self).state()) == pop_state(old(self).state(), kind),
            final(self).stat@ == old(self).stat@,
            final(self).g@ == old(self).g@,
            final(self).parent@ == old(self).parent@,
            final(self).rank@ == old(self).rank@,
            final(self).target == old(self).target,
            r is None ==> final(self).inv(dom, terrain, diagonals, kind, gw, hw, origin, target, time, -1, -1)
                && open_set(final(self).stat@).len() == 0,
            r matches Some(e) ==> {
                &&& e.idx < dom.size()
                &&& old(self).stat@[e.idx as int] == S_OPEN
                &&& final(self).inv(dom, terrain, diagonals, kind, gw, hw, origin, target, time, e.idx as int, -1)
                &&& kind != FR_LIFO ==> e.parent == old(self).parent@[e.idx as int] && e.g == old(self).g@[e.idx as int]
                &&& kind == FR_PQ ==> forall|v: int|
                    0 <= v < dom.size() && v != e.idx && #[trigger] old(self).stat@[v] == S_OPEN ==> gw * old(self).g@[e.idx as int]
                        + hw * heuristic(dom, diagonals, e.idx as int, target) <= gw * old(self).g@[v] + hw * heuristic(
                        dom,
                        diagonals,
                        v,
                        target,
                    )
                &&& kind == FR_LIFO ==> e.g <= time * MAX_STEP && ((e.idx == origin && e.parent == NO_PARENT && e.g
                    == 0) || (e.parent < dom.size() && old(self).stat@[e.parent as int] == S_CLOSED && edge(
                    dom,
                    terrain,
                    e.parent as int,
                    e.idx as int,
                    diagonals,
                )))
            },
    {
        proof {
            reveal(Search::inv);
        }
        if kind == FR_PQ {
            loop
                invariant
                    dom.wf(),
                    kind == FR_PQ,
                    0 <= gw <= 2,
                    0 <= hw <= 6,
                    self.stat@ == old(self).stat@,
                    self.g@ == old(self).g@,
                    self.parent@ == old(self).parent@,
                    self.rank@ == old(self).rank@,
                    self.target == old(self).target,
                    self.fifo@ == old(self).fifo@,
                    self.lifo@ == old(self).lifo@,
                    self.inv(dom, terrain, diagonals, kind, gw, hw, origin, target, time, -1, -1),
                    pop_pq(self.heap.view(), self.stat@, self.heap.view().len()) == pop_pq(
                        old(self).heap.view(),
                        old(self).stat@,
                        old(self).heap.view().len(),
                    ),
                decreases self.heap.view().len(),
            {
                proof {
                    reveal(Search::inv);
                }
                let ghost before = *self;
                let popped = self.heap.pop();
                proof {
                    if let Some(n) = popped {
                        lemma_least(before.heap.view(), n);
                    }
                }
                match popped {
                    None => {
                        proof {
                            assert forall|v: int| 0 <= v < dom.size() implies self.stat@[v] != S_OPEN by {
                                if self.stat@[v] == S_OPEN {
                                    assert(before.heap.view().contains(
                                        entry_for(gw, hw, self.g@[v] as int, heuristic(dom, diagonals, v, target), v),
                                    ));
                                }
                            }
                            assert(open_set(self.stat@) =~= Set::<int>::empty());
                        }
                        return None;
                    },
                    Some(node) => {
                        proof {
                            broadcast use vstd::multiset::group_multiset_axioms;
                            assert forall|n: Node| #[trigger] self.heap.view().contains(n) implies before.heap.view().contains(n) by {
                                assert(self.heap.view().count(n) <= before.heap.view().count(n));
                            }
                        }
                        let i = node.idx as usize;
                        if self.stat[i] == S_OPEN {
                            proof {
                                broadcast use vstd::multiset::group_multiset_axioms;
                                let fresh = entry_for(gw, hw, self.g@[i as int] as int, heuristic(dom, diagonals, i as int, target), i as int);
                                assert(before.heap.view().contains(fresh));
                                let gi = self.g@[i as int] as int;
                                let hi = heuristic(dom, diagonals, i as int, target);
                                assert(node.h == hi);
                                assert(0 <= gw * gi) by (nonlinear_arith)
                                    requires
                                        0 <= gw,
                                        0 <= gi,
                                ;
                                assert(0 <= hw * hi) by (nonlinear_arith)
                                    requires
                                        0 <= hw,
                                        0 <= hi,
                                ;
                                assert(gw * gi + hw * hi <= node.f);
                                assert(fresh.f == gw * gi + hw * hi);
                                assert(node == fresh) by {
                                    crate::heap::lemma_node_le_total(node, fresh);
                                }
                                assert forall|v: int|
                                    0 <= v < dom.size() && v != i && #[trigger] self.stat@[v] == S_OPEN implies gw * gi + hw * hi
                                        <= gw * self.g@[v] + hw * heuristic(dom, diagonals, v, target) by {
                                    let fv = entry_for(gw, hw, self.g@[v] as int, heuristic(dom, diagonals, v, target), v);
                                    assert(before.heap.view().contains(fv));
                                    let gv = self.g@[v] as int;
                                    let hv = heuristic(dom, diagonals, v, target);
                                    assert(0 <= gw * gv) by (nonlinear_arith)
                                        requires
                                            0 <= gw,
                                            0 <= gv,
                                    ;
                                    assert(0 <= hw * hv) by (nonlinear_arith)
                                        requires
                                            0 <= hw,
                                            0 <= hv,
                                    ;
                                    assert(fv.h == hv);
                                    assert(fv.f >= gw * gv + hw * hv);
                                    assert(fv.f == gw * gv + hw * hv);
                                    assert(node_le(node, fv));
                                }
                            }
                            return Some(QEntry { idx: node.idx, parent: self.parent[i], g: self.g[i] });
                        }
                        proof {
                            broadcast use vstd::multiset::group_multiset_axioms;
                            assert forall|v: int| 0 <= v < dom.size() && #[trigger] self.stat@[v] == S_OPEN implies self.heap.view().contains(
                                entry_for(gw, hw, self.g@[v] as int, heuristic(dom, diagonals, v, target), v),
                            ) by {
                                let fresh = entry_for(gw, hw, self.g@[v] as int, heuristic(dom, diagonals, v, target), v);
                                assert(before.heap.view().contains(fresh));
                                assert(fresh != node);
                            }
                        }
                    },
                }
            }
        } else if kind == FR_FIFO {
            let r = self.fifo.pop_front();
            proof {
                let q0 = old(self).fifo@;
                match r {
                    None => {
                        assert forall|v: int| 0 <= v < dom.size() implies self.stat@[v] != S_OPEN by {
                            if self.stat@[v] == S_OPEN {
                                let i = choose|i: int| 0 <= i < q0.len() && #[trigger] q0[i].idx == v;
                            }
                        }
                        assert(open_set(self.stat@) =~= Set::<int>::empty());
                    },
                    Some(e) => {
                        assert(q0[0] == e);
                        assert forall|v: int| 0 <= v < dom.size() && v != e.idx && #[trigger] self.stat@[v] == S_OPEN implies exists|i: int|
                            0 <= i < self.fifo@.len() && #[trigger] self.fifo@[i].idx == v by {
                            let i = choose|i: int| 0 <= i < q0.len() && #[trigger] q0[i].idx == v;
                            assert(i != 0);
                            assert(self.fifo@[i - 1] == q0[i]);
                        }
                        assert forall|i: int, j: int| 0 <= i < j < self.fifo@.len() implies #[trigger] self.fifo@[i].idx != #[trigger] self.fifo@[j].idx by {
                            assert(self.fifo@[i] == q0[i + 1]);
                            assert(self.fifo@[j] == q0[j + 1]);
                        }
                        assert forall|i: int| 0 <= i < self.fifo@.len() implies {
                            let e2 = #[trigger] self.fifo@[i];
                            &&& e2.idx < dom.size()
                            &&& e2.idx != e.idx
                            &&& self.stat@[e2.idx as int] == S_OPEN
                            &&& e2.parent == self.parent@[e2.idx as int]
                            &&& e2.g == self.g@[e2.idx as int]
                        } by {
                            assert(self.fifo@[i] == q0[i + 1]);
                            assert(q0[i + 1].idx != q0[0].idx);
                        }
                    },
                }
            }
            r
        } else {
            loop
                invariant
                    dom.wf(),
                    kind == FR_LIFO,
                    self.stat@ == old(self).stat@,
                    self.g@ == old(self).g@,
                    self.parent@ == old(self).parent@,
                    self.rank@ == old(self).rank@,
                    self.target == old(self).target,
                    self.heap == old(self).heap,
                    self.fifo@ == old(self).fifo@,
                    self.inv(dom, terrain, diagonals, kind, gw, hw, origin, target, time, -1, -1),
                    pop_stack(self.lifo@, self.stat@) == pop_stack(old(self).lifo@, old(self).stat@),
                decreases self.lifo@.len(),
            {
                proof {
                    reveal(Search::inv);
                }
                let ghost st0 = self.lifo@;
                match self.lifo.pop() {
                    None => {
                        proof {
                            assert forall|v: int| 0 <= v < dom.size() implies self.stat@[v] != S_OPEN by {
                                if self.stat@[v] == S_OPEN {
                                    let i = choose|i: int| 0 <= i < st0.len() && #[trigger] st0[i].idx == v;
                                }
                            }
                            assert(open_set(self.stat@) =~= Set::<int>::empty());
                        }
                        return None;
                    },
                    Some(e) => {
                        proof {
                            assert(st0 =~= self.lifo@.push(e));
                            assert(st0[st0.len() - 1] == e);
                        }
                        if self.stat[e.idx as usize] != S_CLOSED {
                            proof {
                                assert forall|v: int| 0 <= v < dom.size() && v != e.idx && #[trigger] self.stat@[v] == S_OPEN implies exists|i: int|
                                    0 <= i < self.lifo@.len() && #[trigger] self.lifo@[i].idx == v by {
                                    let i = choose|i: int| 0 <= i < st0.len() && #[trigger] st0[i].idx == v;
                                    assert(i != st0.len() - 1);
                                    assert(self.lifo@[i] == st0[i]);
                                }
                                assert forall|i: int| 0 <= i < self.lifo@.len() implies #[trigger] self.lifo@[i] == st0[i] by {}
                            }
                            return Some(e);
                        }
                        proof {
                            assert forall|v: int| 0 <= v < dom.size() && #[trigger] self.stat@[v] == S_OPEN implies exists|i: int|
                                0 <= i < self.lifo@.len() && #[trigger] self.lifo@[i].idx == v by {
                                let i = choose|i: int| 0 <= i < st0.len() && #[trigger] st0[i].idx == v;
                                assert(i != st0.len() - 1);
                                assert(self.lifo@[i] == st0[i]);
                            }
                            assert forall|i: int| 0 <= i < self.lifo@.len() implies #[trigger] self.lifo@[i] == st0[i] by {}
                        }
                    },
                }
            }
        }
    }
}

} // verus!

verus! {

impl Search {
    /// Close the cell of entry `e` as expansion number `time + 1`. A stack
    /// entry commits the branch it came from.
    fn close(
        &mut self,
        kind: u8,
        e: QEntry,
        Ghost(dom): Ghost<Domain>,
        Ghost(terrain): Ghost<Seq<u8>>,
        Ghost(diagonals): Ghost<bool>,
        Ghost(gw): Ghost<int>,
        Ghost(hw): Ghost<int>,
        Ghost(origin): Ghost<int>,
        Ghost(target): Ghost<int>,
        Ghost(time): Ghost<int>,
    )
        requires
            dom.wf(),
            kind == FR_PQ || kind == FR_FIFO || kind == FR_LIFO,
            0 <= time,
            e.idx < dom.size(),
            old(self).stat@[e.idx as int] == S_OPEN,
            old(self).inv(dom, terrain, diagonals, kind, gw, hw, origin, target, time, e.idx as int, -1),
            kind != FR_LIFO ==> e.parent == old(self).parent@[e.idx as int] && e.g == old(self).g@[e.idx as int],
            kind == FR_LIFO ==> e.g <= time * MAX_STEP && ((e.idx == origin && e.parent == NO_PARENT && e.g == 0) || (
            e.parent < dom.size() && old(self).stat@[e.parent as int] == S_CLOSED && edge(
                dom,
                terrain,
                e.parent as int,
                e.idx as int,
                diagonals,
            ))),
            kind == FR_PQ && gw == 2 && hw <= 2 ==> least_cost_bound(dom, terrain, diagonals, origin, e.idx as int, e.g as int),
            kind == FR_FIFO ==> hop_bound(dom, terrain, diagonals, origin, e.idx as int, e.g as int),
        ensures
            final(self).inv(dom, terrain, diagonals, kind, gw, hw, origin, target, time + 1, -1, e.idx as int),
            final(self).stat@ == old(self).stat@.update(e.idx as int, S_CLOSED),
            final(self).g@[e.idx as int] == e.g,
            final(self).parent@[e.idx as int] == e.parent,
            kind != FR_LIFO ==> final(self).g@ == old(self).g@ && final(self).parent@ == old(self).parent@,
            final(self).state() == close_state(old(self).state(), kind, e),
            final(self).target == old(self).target,
            closed_set(final(self).stat@) == closed_set(old(self).stat@).insert(e.idx as int),
            open_set(final(self).stat@) == open_set(old(self).stat@).remove(e.idx as int),
    {
        proof {
            reveal(Search::inv);
        }
        let ui = e.idx as usize;
        let ghost old_self = *self;
        if kind == FR_LIFO {
            self.parent.set(ui, e.parent);
            self.g.set(ui, e.g);
        }
        self.stat.set(ui, S_CLOSED);
        proof {
            let u = e.idx as int;
            if u != origin {
                self.rank@ = self.rank@.update(u, time + 1);
            }
            lemma_status_update(old_self.stat@, u, S_CLOSED);
            let size = dom.size();
            let stat0 = old_self.stat@;
            let stat = self.stat@;
            // The origin closes first.
            if u != origin {
                if kind != FR_LIFO {
                    assert(stat0[u] != UNSEEN);
                    assert(stat0[old_self.parent@[u] as int] == S_CLOSED);
                }
                assert(stat0[origin] == S_CLOSED);
            } else if kind == FR_LIFO {
                if e.parent != NO_PARENT {
                    assert(stat0[e.parent as int] == S_CLOSED);
                    assert(stat0[origin] == S_CLOSED);
                    assert(false);
                }
            }
            let m0 = old_self.members(origin);
            let m1 = self.members(origin);
            assert(m1 =~= m0.insert(u));
            assert(parent_forest(dom, terrain, diagonals, origin, self.parent@, self.rank@, m1)) by {
                assert forall|v: int| #[trigger] m1.contains(v) && v != origin implies {
                    &&& self.parent@[v] < dom.size()
                    &&& m1.contains(self.parent@[v] as int)
                    &&& 0 <= self.rank@[self.parent@[v] as int] < self.rank@[v]
                    &&& edge(dom, terrain, self.parent@[v] as int, v, diagonals)
                } by {
                    if v == u {
                        if kind != FR_LIFO {
                            assert(stat0[self.parent@[u] as int] == S_CLOSED);
                            assert(m0.contains(self.parent@[u] as int));
                        } else {
                            assert(m0.contains(e.parent as int));
                        }
                    } else {
                        assert(m0.contains(v));
                    }
                }
            }
            assert forall|v: int|
                0 <= v < size && (#[trigger] stat[v] == S_CLOSED || (kind != FR_LIFO && stat[v] == S_OPEN)) implies self.g@[v]
                    <= (time + 1) * MAX_STEP by {
                assert(time * MAX_STEP <= (time + 1) * MAX_STEP);
            }
            assert forall|v: int| #[trigger] m1.contains(v) implies self.rank@[v] <= time + 1 by {
                if v != u {
                    assert(m0.contains(v));
                }
            }
            if kind == FR_LIFO {
                assert forall|i: int| 0 <= i < self.lifo@.len() implies {
                    let x = #[trigger] self.lifo@[i];
                    &&& x.idx < size
                    &&& stat[x.idx as int] != UNSEEN
                    &&& x.g <= (time + 1) * MAX_STEP
                    &&& ((x.idx == origin && x.parent == NO_PARENT && x.g == 0) || (x.parent < size
                        && stat[x.parent as int] == S_CLOSED && edge(dom, terrain, x.parent as int, x.idx as int, diagonals)))
                } by {
                    assert(time * MAX_STEP <= (time + 1) * MAX_STEP);
                }
            }
            assert(self.inv(dom, terrain, diagonals, kind, gw, hw, origin, target, time + 1, -1, u));
        }
    }
}

} // verus!

verus! {

/// What offering `v` from the closed cell `u` may assume.
spec fn relax_pre(
    s: Search,
    cells: Seq<u8>,
    dom: Domain,
    terrain: Seq<u8>,
    diagonals: bool,
    kind: u8,
    gw: u128,
    hw: u128,
    origin: int,
    time: int,
    u: u32,
    v: u32,
    k: usize,
) -> bool {
    &&& dom.wf()
    &&& terrain.len() == dom.size()
    &&& gw <= 2
    &&& hw <= 6
    &&& 1 <= time <= 0x1_0000_0000
    &&& u < dom.size()
    &&& v < dom.size()
    &&& s.stat@[u as int] == S_CLOSED
    &&& s.stat@[v as int] != S_CLOSED
    &&& s.g@[u as int] + MAX_STEP <= time * MAX_STEP
    &&& edge(dom, terrain, u as int, v as int, diagonals)
    &&& dom.step_axes(u as int, v as int) <= k <= 3
    &&& s.inv(dom, terrain, diagonals, kind, gw as int, hw as int, origin, s.target as int, time, -1, u as int)
    &&& cells.len() == dom.size()
}

/// What offering `v` from the closed cell `u` achieves: `v` is discovered,
/// nothing else changes, and a score of `v` still open is bounded by the move.
spec fn relax_post(
    s0: Search,
    s1: Search,
    cells0: Seq<u8>,
    cells1: Seq<u8>,
    dom: Domain,
    terrain: Seq<u8>,
    diagonals: bool,
    kind: u8,
    gw: u128,
    hw: u128,
    origin: int,
    time: int,
    u: u32,
    v: u32,
    k: usize,
    opened: bool,
) -> bool {
    &&& s1.inv(dom, terrain, diagonals, kind, gw as int, hw as int, origin, s0.target as int, time, -1, u as int)
    &&& s1.target == s0.target
    &&& s1.rank@ == s0.rank@
    &&& s1.stat@.len() == s0.stat@.len()
    &&& forall|w: int|
        0 <= w < dom.size() && w != v ==> #[trigger] s1.stat@[w] == s0.stat@[w] && s1.g@[w] == s0.g@[w] && s1.parent@[w]
            == s0.parent@[w]
    &&& s1.stat@[v as int] == S_OPEN
    &&& opened == (s0.stat@[v as int] == UNSEEN)
    &&& kind == FR_PQ ==> s1.g@[v as int] <= s0.g@[v as int]
    &&& kind == FR_PQ ==> s1.g@[v as int] <= s0.g@[u as int] + step_cost(k as int) * terrain[v as int]
    &&& cells1 == if opened && cells0[v as int] == FREE {
        cells0.update(v as int, OPEN)
    } else {
        cells0
    }
}

/// The shape facts the search invariant carries.
proof fn lemma_inv_shape(
    s: Search,
    dom: Domain,
    terrain: Seq<u8>,
    diagonals: bool,
    kind: u8,
    gw: int,
    hw: int,
    origin: int,
    target: int,
    time: int,
    hole: int,
    pending: int,
)
    requires
        s.inv(dom, terrain, diagonals, kind, gw, hw, origin, target, time, hole, pending),
    ensures
        s.stat@.len() == dom.size(),
        s.g@.len() == dom.size(),
        s.parent@.len() == dom.size(),
        s.rank@.len() == dom.size(),
        0 <= origin < dom.size(),
        0 <= target < dom.size(),
        s.target == target,
        s.stat@[origin] != UNSEEN,
        forall|v: int| 0 <= v < dom.size() ==> #[trigger] s.stat@[v] == UNSEEN || s.stat@[v] == S_OPEN || s.stat@[v] == S_CLOSED,
        kind == FR_PQ ==> s.heap.wf(),
{
    reveal(Search::inv);
}

/// Lowering the score of the undiscovered or open cell `v` to `ng`
/// through the closed cell `u`, and pushing the matching entry, keeps the
/// best-first invariant.
proof fn lemma_relax_pq(
    s0: Search,
    s1: Search,
    dom: Domain,
    terrain: Seq<u8>,
    diagonals: bool,
    gw: int,
    hw: int,
    origin: int,
    time: int,
    u: int,
    v: int,
    k: int,
    ng: int,
)
    requires
        dom.wf(),
        0 <= gw <= 2,
        0 <= hw <= 6,
        0 <= u < dom.size(),
        0 <= v < dom.size(),
        s0.stat@[u] == S_CLOSED,
        s0.stat@[v] != S_CLOSED,
        edge(dom, terrain, u, v, diagonals),
        dom.step_axes(u, v) <= k <= 3,
        ng == s0.g@[u] + step_cost(k) * terrain[v],
        ng <= time * MAX_STEP,
        ng < s0.g@[v],
        s0.inv(dom, terrain, diagonals, FR_PQ, gw, hw, origin, s0.target as int, time, -1, u),
        s1.stat@ == s0.stat@.update(v, S_OPEN),
        s1.g@ == s0.g@.update(v, ng as u128),
        s1.parent@ == s0.parent@.update(v, u as u32),
        s1.rank@ == s0.rank@,
        s1.target == s0.target,
        s1.heap.wf(),
        s1.heap.view() == s0.heap.view().insert(
            entry_for(gw, hw, ng, heuristic(dom, diagonals, v, s0.target as int), v),
        ),
        gw * ng + hw * heuristic(dom, diagonals, v, s0.target as int) <= u128::MAX,
        0 <= heuristic(dom, diagonals, v, s0.target as int) <= u128::MAX,
    ensures
        s1.inv(dom, terrain, diagonals, FR_PQ, gw, hw, origin, s0.target as int, time, -1, u),
{
    reveal(Search::inv);
    broadcast use vstd::multiset::group_multiset_axioms;
    let size = dom.size();
    let target = s0.target as int;
    let kind = FR_PQ;
    let stat = s1.stat@;
    let g = s1.g@;
    let h = heuristic(dom, diagonals, v, target);
    let n = entry_for(gw, hw, ng, h, v);
    let heap0 = s0.heap.view();
    assert(s1.members(origin) =~= s0.members(origin));
    assert forall|x: Node| #[trigger] s1.heap.view().contains(x) implies {
        &&& x.idx < size
        &&& stat[x.idx as int] != UNSEEN
        &&& x.h == heuristic(dom, diagonals, x.idx as int, target)
        &&& x.f >= gw * g[x.idx as int] + hw * x.h
    } by {
        if x != n {
            assert(heap0.contains(x));
            if x.idx == v {
                assert(gw * g[v] <= gw * s0.g@[v]) by (nonlinear_arith)
                    requires
                        g[v] <= s0.g@[v],
                        0 <= gw,
                ;
            }
        }
    }
    assert forall|x: int| 0 <= x < size && #[trigger] stat[x] == S_OPEN implies s1.heap.view().contains(
        entry_for(gw, hw, g[x] as int, heuristic(dom, diagonals, x, target), x),
    ) by {
        if x != v {
            assert(heap0.contains(entry_for(gw, hw, g[x] as int, heuristic(dom, diagonals, x, target), x)));
        }
    }
    assert forall|a: int, b: int|
        0 <= a < size && a != u && #[trigger] stat[a] == S_CLOSED && #[trigger] edge(dom, terrain, a, b, diagonals) implies {
        &&& 0 <= b < size
        &&& stat[b] != UNSEEN
        &&& kind == FR_PQ && stat[b] != S_CLOSED ==> g[b] <= g[a] + edge_cost(dom, terrain, a, b)
    } by {
        assert(s0.stat@[a] == S_CLOSED);
        assert(a != v);
    }
    assert forall|x: int| 0 <= x < size && #[trigger] stat[x] != UNSEEN && x != origin implies {
        &&& s1.parent@[x] < size
        &&& stat[s1.parent@[x] as int] == S_CLOSED
        &&& edge(dom, terrain, s1.parent@[x] as int, x, diagonals)
        &&& kind == FR_PQ ==> g[x] >= g[s1.parent@[x] as int] + edge_cost(dom, terrain, s1.parent@[x] as int, x)
        &&& kind == FR_FIFO ==> g[x] == g[s1.parent@[x] as int] + 1
    } by {
        if x == v {
            crate::route::lemma_adjacent_step(dom, u, v, diagonals);
            assert(step_cost(dom.step_axes(u, v)) <= step_cost(k));
            assert(step_cost(dom.step_axes(u, v)) * terrain[v] <= step_cost(k) * terrain[v]) by (nonlinear_arith)
                requires
                    step_cost(dom.step_axes(u, v)) <= step_cost(k),
                    0 <= terrain[v],
            ;
        } else {
            assert(s0.stat@[x] != UNSEEN);
            let px = s0.parent@[x] as int;
            assert(s0.stat@[px] == S_CLOSED);
        }
    }
}

/// An undiscovered cell has no score yet; a discovered one other than the
/// origin is passable.
proof fn lemma_inv_unseen(
    s: Search,
    dom: Domain,
    terrain: Seq<u8>,
    diagonals: bool,
    kind: u8,
    gw: int,
    hw: int,
    origin: int,
    target: int,
    time: int,
    hole: int,
    pending: int,
    v: int,
)
    requires
        s.inv(dom, terrain, diagonals, kind, gw, hw, origin, target, time, hole, pending),
        0 <= v < dom.size(),
    ensures
        s.stat@[v] == UNSEEN ==> s.g@[v] == u128::MAX,
        s.stat@[v] != UNSEEN && v != origin ==> passable(dom, terrain, v),
        s.stat@[v] == S_CLOSED || (kind != FR_LIFO && s.stat@[v] == S_OPEN) ==> s.g@[v] <= time * MAX_STEP,
{
    reveal(Search::inv);
}

impl Search {
    /// Best-first relaxation: keep the cheaper score and push a fresh entry.
    fn relax_pq(
        &mut self,
        cells: &mut Vec<u8>,
        dom: &Domain,
        terrain: &[u8],
        diagonals: bool,
        gw: u128,
        hw: u128,
        u: u32,
        v: u32,
        k: usize,
        Ghost(origin): Ghost<int>,
        Ghost(time): Ghost<int>,
    ) -> (opened: bool)
        requires
            relax_pre(*old(self), old(cells)@, *dom, terrain@, diagonals, FR_PQ, gw, hw, origin, time, u, v, k),
        ensures
            relax_post(
                *old(self),
                *final(self),
                old(cells)@,
                final(cells)@,
                *dom,
                terrain@,
                diagonals,
                FR_PQ,
                gw,
                hw,
                origin,
                time,
                u,
                v,
                k,
                opened,
            ),
            (final(self).state(), final(cells)@, opened) == relax_state(
                old(self).state(),
                old(cells)@,
                *dom,
                terrain@,
                diagonals,
                old(self).target as int,
                FR_PQ,
                gw as int,
                hw as int,
                u as int,
                v as int,
                step_cost(k as int),
            ),
    {
        let ghost s0 = *self;
        proof {
            lemma_inv_shape(s0, *dom, terrain@, diagonals, FR_PQ, gw as int, hw as int, origin, s0.target as int, time, -1, u as int);
            lemma_inv_unseen(s0, *dom, terrain@, diagonals, FR_PQ, gw as int, hw as int, origin, s0.target as int, time, -1, u as int, v as int);
        }
        let nu = v as usize;
        let ui = u as usize;
        let g_here = self.g[ui];
        proof {
            assert(time * MAX_STEP <= 0x1_0000_0000 * MAX_STEP) by (nonlinear_arith)
                requires
                    time <= 0x1_0000_0000,
            ;
            lemma_step_bound(k as int, terrain@[v as int] as int);
            assert(STEP_COST[k as int] as int == step_cost(k as int));
        }
        let w = terrain[nu] as u128;
        let ng = g_here + STEP_COST[k] as u128 * w;
        if ng < self.g[nu] {
            let opened = self.stat[nu] == UNSEEN;
            self.g.set(nu, ng);
            self.parent.set(nu, u);
            if opened {
                self.stat.set(nu, S_OPEN);
                if cells[nu] == FREE {
                    cells.set(nu, OPEN);
                }
            }
            let h = heuristic_exec(dom, diagonals, v, self.target);
            proof {
                assert(gw * ng <= 2 * (0x1_0000_0000 * MAX_STEP)) by (nonlinear_arith)
                    requires
                        gw <= 2,
                        ng <= 0x1_0000_0000 * MAX_STEP,
                ;
                assert(hw * h <= 6 * (3 * 0x8000_0000 * SQRT_3)) by (nonlinear_arith)
                    requires
                        hw <= 6,
                        h <= 3 * 0x8000_0000 * SQRT_3,
                ;
            }
            let f = gw * ng + hw * h;
            let n = Node { f, h, idx: v };
            self.heap.push(n);
            proof {
                assert(self.stat@ =~= s0.stat@.update(v as int, S_OPEN));
                assert(n == entry_for(gw as int, hw as int, ng as int, heuristic(*dom, diagonals, v as int, s0.target as int), v as int));
                lemma_relax_pq(s0, *self, *dom, terrain@, diagonals, gw as int, hw as int, origin, time, u as int, v as int, k as int, ng as int);
            }
            return opened;
        }
        false
    }
}

impl Search {
    /// Breadth-first discovery: a cell is queued once, when first seen.
    fn relax_fifo(
        &mut self,
        cells: &mut Vec<u8>,
        dom: &Domain,
        terrain: &[u8],
        diagonals: bool,
        gw: u128,
        hw: u128,
        u: u32,
        v: u32,
        k: usize,
        Ghost(origin): Ghost<int>,
        Ghost(time): Ghost<int>,
    ) -> (opened: bool)
        requires
            relax_pre(*old(self), old(cells)@, *dom, terrain@, diagonals, FR_FIFO, gw, hw, origin, time, u, v, k),
        ensures
            relax_post(
                *old(self),
                *final(self),
                old(cells)@,
                final(cells)@,
                *dom,
                terrain@,
                diagonals,
                FR_FIFO,
                gw,
                hw,
                origin,
                time,
                u,
                v,
                k,
                opened,
            ),
            (final(self).state(), final(cells)@, opened) == relax_state(
                old(self).state(),
                old(cells)@,
                *dom,
                terrain@,
                diagonals,
                old(self).target as int,
                FR_FIFO,
                gw as int,
                hw as int,
                u as int,
                v as int,
                step_cost(k as int),
            ),
    {
        proof {
            reveal(Search::inv);
        }
        let ghost s0 = *self;
        let ghost size = dom.size();
        let ghost target = self.target as int;
        let ghost kind = FR_FIFO;
        let nu = v as usize;
        let ui = u as usize;
        let g_here = self.g[ui];
        if self.stat[nu] == UNSEEN {
            proof {
                assert(time * MAX_STEP <= 0x1_0000_0000 * MAX_STEP) by (nonlinear_arith)
                    requires
                        time <= 0x1_0000_0000,
                ;
            }
            self.stat.set(nu, S_OPEN);
            self.g.set(nu, g_here + 1);
            self.parent.set(nu, u);
            let ghost q0 = self.fifo@;
            self.fifo.push_back(QEntry { idx: v, parent: u, g: g_here + 1 });
            if cells[nu] == FREE {
                cells.set(nu, OPEN);
            }
            proof {
                let stat = self.stat@;
                let g = self.g@;
                let vi = v as int;
                let q = self.fifo@;
                assert(self.members(origin) =~= s0.members(origin));
                assert forall|i: int, j: int| 0 <= i < j < q.len() implies #[trigger] q[i].idx != #[trigger] q[j].idx by {
                    if j == q.len() - 1 {
                        assert(s0.stat@[q0[i].idx as int] == S_OPEN);
                    } else {
                        assert(q[i] == q0[i] && q[j] == q0[j]);
                    }
                }
                assert forall|i: int| 0 <= i < q.len() implies {
                    let e = #[trigger] q[i];
                    &&& e.idx < size
                    &&& e.idx != -1
                    &&& stat[e.idx as int] == S_OPEN
                    &&& e.parent == self.parent@[e.idx as int]
                    &&& e.g == g[e.idx as int]
                } by {
                    if i < q0.len() {
                        assert(q[i] == q0[i]);
                        assert(s0.stat@[q0[i].idx as int] == S_OPEN);
                    }
                }
                assert forall|x: int| 0 <= x < size && x != -1 && #[trigger] stat[x] == S_OPEN implies exists|i: int|
                    0 <= i < q.len() && #[trigger] q[i].idx == x by {
                    if x == vi {
                        assert(q[q.len() - 1].idx == x);
                    } else {
                        let i = choose|i: int| 0 <= i < q0.len() && #[trigger] q0[i].idx == x;
                        assert(q[i] == q0[i]);
                    }
                }
                assert forall|a: int, b: int|
                    0 <= a < size && a != u && #[trigger] stat[a] == S_CLOSED && #[trigger] edge(*dom, terrain@, a, b, diagonals) implies {
                    &&& 0 <= b < size
                    &&& stat[b] != UNSEEN
                    &&& kind == FR_PQ && stat[b] != S_CLOSED ==> g[b] <= g[a] + edge_cost(*dom, terrain@, a, b)
                } by {
                    assert(s0.stat@[a] == S_CLOSED);
                }
                assert forall|x: int| 0 <= x < size && #[trigger] stat[x] != UNSEEN && x != origin implies {
                    &&& self.parent@[x] < size
                    &&& stat[self.parent@[x] as int] == S_CLOSED
                    &&& edge(*dom, terrain@, self.parent@[x] as int, x, diagonals)
                    &&& kind == FR_PQ ==> g[x] >= g[self.parent@[x] as int] + edge_cost(*dom, terrain@, self.parent@[x] as int, x)
                    &&& kind == FR_FIFO ==> g[x] == g[self.parent@[x] as int] + 1
                } by {
                    if x != vi {
                        assert(s0.stat@[x] != UNSEEN);
                        let px = s0.parent@[x] as int;
                        assert(s0.stat@[px] == S_CLOSED);
                        assert(px != vi);
                    }
                }
                assert(self.inv(*dom, terrain@, diagonals, kind, gw as int, hw as int, origin, target, time, -1, u as int));
            }
            return true;
        }
        false
    }

    /// Depth-first discovery: every offer is stacked with the branch it came
    /// from, so the newest branch is explored first.
    fn relax_lifo(
        &mut self,
        cells: &mut Vec<u8>,
        dom: &Domain,
        terrain: &[u8],
        diagonals: bool,
        gw: u128,
        hw: u128,
        u: u32,
        v: u32,
        k: usize,
        Ghost(origin): Ghost<int>,
        Ghost(time): Ghost<int>,
    ) -> (opened: bool)
        requires
            relax_pre(*old(self), old(cells)@, *dom, terrain@, diagonals, FR_LIFO, gw, hw, origin, time, u, v, k),
        ensures
            relax_post(
                *old(self),
                *final(self),
                old(cells)@,
                final(cells)@,
                *dom,
                terrain@,
                diagonals,
                FR_LIFO,
                gw,
                hw,
                origin,
                time,
                u,
                v,
                k,
                opened,
            ),
            (final(self).state(), final(cells)@, opened) == relax_state(
                old(self).state(),
                old(cells)@,
                *dom,
                terrain@,
                diagonals,
                old(self).target as int,
                FR_LIFO,
                gw as int,
                hw as int,
                u as int,
                v as int,
                step_cost(k as int),
            ),
    {
        proof {
            reveal(Search::inv);
        }
        let ghost s0 = *self;
        let ghost size = dom.size();
        let ghost target = self.target as int;
        let ghost kind = FR_LIFO;
        let nu = v as usize;
        let ui = u as usize;
        let g_here = self.g[ui];
        proof {
            assert(time * MAX_STEP <= 0x1_0000_0000 * MAX_STEP) by (nonlinear_arith)
                requires
                    time <= 0x1_0000_0000,
            ;
        }
        let opened = self.stat[nu] == UNSEEN;
        if opened {
            self.stat.set(nu, S_OPEN);
            if cells[nu] == FREE {
                cells.set(nu, OPEN);
            }
        }
        let ghost q0 = self.lifo@;
        self.lifo.push(QEntry { idx: v, parent: u, g: g_here + 1 });
        proof {
            let stat = self.stat@;
            let g = self.g@;
            let vi = v as int;
            let q = self.lifo@;
            assert(self.members(origin) =~= s0.members(origin));
            assert forall|i: int| 0 <= i < q.len() implies {
                let e = #[trigger] q[i];
                &&& e.idx < size
                &&& stat[e.idx as int] != UNSEEN
                &&& e.g <= time * MAX_STEP
                &&& ((e.idx == origin && e.parent == NO_PARENT && e.g == 0) || (e.parent < size && stat[e.parent as int]
                    == S_CLOSED && edge(*dom, terrain@, e.parent as int, e.idx as int, diagonals)))
            } by {
                if i < q0.len() {
                    assert(q[i] == q0[i]);
                }
            }
            assert forall|x: int| 0 <= x < size && x != -1 && #[trigger] stat[x] == S_OPEN implies exists|i: int|
                0 <= i < q.len() && #[trigger] q[i].idx == x by {
                if x == vi {
                    assert(q[q.len() - 1].idx == x);
                } else {
                    let i = choose|i: int| 0 <= i < q0.len() && #[trigger] q0[i].idx == x;
                    assert(q[i] == q0[i]);
                }
            }
            assert forall|a: int, b: int|
                0 <= a < size && a != u && #[trigger] stat[a] == S_CLOSED && #[trigger] edge(*dom, terrain@, a, b, diagonals) implies {
                &&& 0 <= b < size
                &&& stat[b] != UNSEEN
                &&& kind == FR_PQ && stat[b] != S_CLOSED ==> g[b] <= g[a] + edge_cost(*dom, terrain@, a, b)
            } by {
                assert(s0.stat@[a] == S_CLOSED);
            }
            assert(self.inv(*dom, terrain@, diagonals, kind, gw as int, hw as int, origin, target, time, -1, u as int));
        }
        opened
    }
}

/// The cell a stencil move out of `u` reaches, when it is one the searches
/// take, and the base cost the move is charged.
#[verifier::opaque]
spec fn offered(dom: Domain, terrain: Seq<u8>, u: u32, j: int, diagonals: bool) -> Option<(int, int)> {
    match crate::route::stencil_move(dom, u as int, j, diagonals) {
        Some(v) => if passable(dom, terrain, v) {
            let m = crate::terrain::stencil(j);
            Some((v, step_cost(crate::domain::abs_int(m.0) + crate::domain::abs_int(m.1) + crate::domain::abs_int(m.2))))
        } else {
            None
        },
        None => None,
    }
}

/// Stencil move `j = (dx+1) + 3(dy+1) + 9(dz+1)` offers the neighbour
/// `(dx, dy, dz)` away when diagonals allow it and it is passable, at the
/// base cost of a move over `|dx|+|dy|+|dz|` axes.
proof fn lemma_offered(dom: Domain, terrain: Seq<u8>, u: u32, j: int, diagonals: bool, dx: int, dy: int, dz: int)
    requires
        0 <= j < 27,
        crate::terrain::stencil(j) == (dx, dy, dz),
    ensures
        offered(dom, terrain, u, j, diagonals) == if j == 13 || (!diagonals && crate::domain::abs_int(dx)
            + crate::domain::abs_int(dy) + crate::domain::abs_int(dz) > 1) {
            None
        } else {
            match dom.neighbor_spec(u as int, dx, dy, dz) {
                Some(v) => if passable(dom, terrain, v) {
                    Some((v, step_cost(crate::domain::abs_int(dx) + crate::domain::abs_int(dy) + crate::domain::abs_int(dz))))
                } else {
                    None
                },
                None => None,
            }
        },
{
    reveal(offered);
}

/// An offered cell lies in the box.
proof fn lemma_offered_in_box(dom: Domain, terrain: Seq<u8>, u: u32, j: int, diagonals: bool)
    ensures
        offered(dom, terrain, u, j, diagonals) matches Some((v, c)) ==> 0 <= v < dom.size() && passable(dom, terrain, v),
{
    reveal(offered);
}

/// A search state after cells were offered from `u`, relative to the state
/// before: discoveries only, closed cells untouched, scores only lowered.
spec fn grown(s0: Search, s1: Search, cells0: Seq<u8>, cells1: Seq<u8>, size: int, kind: u8) -> bool {
    &&& s1.target == s0.target
    &&& s1.rank@ == s0.rank@
    &&& s1.stat@.len() == s0.stat@.len()
    &&& cells1.len() == cells0.len()
    &&& forall|w: int|
        0 <= w < size ==> #[trigger] s1.stat@[w] == s0.stat@[w] || (s0.stat@[w] == UNSEEN && s1.stat@[w] == S_OPEN)
    &&& forall|w: int|
        0 <= w < size && #[trigger] s0.stat@[w] == S_CLOSED ==> s1.g@[w] == s0.g@[w] && s1.parent@[w] == s0.parent@[w]
    &&& kind == FR_PQ ==> forall|w: int| 0 <= w < size ==> #[trigger] s1.g@[w] <= s0.g@[w]
    &&& closed_set(s1.stat@) == closed_set(s0.stat@)
    &&& forall|i: int|
        0 <= i < size ==> #[trigger] cells1[i] == if s0.stat@[i] == UNSEEN && s1.stat@[i] != UNSEEN && cells0[i] == FREE {
            OPEN
        } else {
            cells0[i]
        }
}

/// The cell stencil move `j` offers from `u`, with the axis count the move
/// is charged for.
fn offered_exec(dom: &Domain, terrain: &[u8], u: u32, j: i32, diagonals: bool) -> (r: Option<(u32, usize)>)
    requires
        dom.wf(),
        terrain@.len() == dom.size(),
        u < dom.size(),
        0 <= j < 27,
    ensures
        r is Some <==> offered(*dom, terrain@, u, j as int, diagonals) is Some,
        r matches Some((v, k)) ==> {
            &&& offered(*dom, terrain@, u, j as int, diagonals) == Some((v as int, step_cost(k as int)))
            &&& v < dom.size()
            &&& edge(*dom, terrain@, u as int, v as int, diagonals)
            &&& dom.step_axes(u as int, v as int) <= k <= 3
        },
{
    let (dx, dy, dz) = (j % 3 - 1, (j / 3) % 3 - 1, j / 9 - 1);
    assert(crate::terrain::stencil(j as int) == (dx as int, dy as int, dz as int));
    let kk = (if dx < 0 { -dx } else { dx }) + (if dy < 0 { -dy } else { dy }) + (if dz < 0 { -dz } else { dz });
    proof {
        lemma_offered(*dom, terrain@, u, j as int, diagonals, dx as int, dy as int, dz as int);
    }
    if j == 13 || (!diagonals && kk > 1) {
        return None;
    }
    match dom.neighbor(u, dx, dy, dz) {
        Some(ni) => {
            let t = terrain[ni as usize];
            if t != T_VOID && t != T_OBST {
                proof {
                    dom.lemma_neighbor_adjacent(u as int, dx as int, dy as int, dz as int);
                    crate::route::lemma_adjacent_step(*dom, u as int, ni as int, diagonals);
                }
                Some((ni, kk as usize))
            } else {
                None
            }
        },
        None => None,
    }
}

impl Search {
    /// Offer `v` to the frontier structure of `kind`.
    fn relax(
        &mut self,
        cells: &mut Vec<u8>,
        dom: &Domain,
        terrain: &[u8],
        diagonals: bool,
        kind: u8,
        gw: u128,
        hw: u128,
        u: u32,
        v: u32,
        k: usize,
        Ghost(origin): Ghost<int>,
        Ghost(time): Ghost<int>,
    ) -> (opened: bool)
        requires
            kind == FR_PQ || kind == FR_FIFO || kind == FR_LIFO,
            relax_pre(*old(self), old(cells)@, *dom, terrain@, diagonals, kind, gw, hw, origin, time, u, v, k),
        ensures
            relax_post(
                *old(self),
                *final(self),
                old(cells)@,
                final(cells)@,
                *dom,
                terrain@,
                diagonals,
                kind,
                gw,
                hw,
                origin,
                time,
                u,
                v,
                k,
                opened,
            ),
            (final(self).state(), final(cells)@, opened) == relax_state(
                old(self).state(),
                old(cells)@,
                *dom,
                terrain@,
                diagonals,
                old(self).target as int,
                kind,
                gw as int,
                hw as int,
                u as int,
                v as int,
                step_cost(k as int),
            ),
    {
        if kind == FR_PQ {
            self.relax_pq(cells, dom, terrain, diagonals, gw, hw, u, v, k, Ghost(origin), Ghost(time))
        } else if kind == FR_FIFO {
            self.relax_fifo(cells, dom, terrain, diagonals, gw, hw, u, v, k, Ghost(origin), Ghost(time))
        } else {
            self.relax_lifo(cells, dom, terrain, diagonals, gw, hw, u, v, k, Ghost(origin), Ghost(time))
        }
    }

    /// Offer the cell stencil move `j` reaches from the closed cell `u`, if
    /// the searches take that move. Returns whether it was newly discovered.
    fn offer(
        &mut self,
        cells: &mut Vec<u8>,
        dom: &Domain,
        terrain: &[u8],
        diagonals: bool,
        kind: u8,
        gw: u128,
        hw: u128,
        u: u32,
        j: i32,
        Ghost(origin): Ghost<int>,
        Ghost(time): Ghost<int>,
    ) -> (o: bool)
        requires
            0 <= j < 27,
            kind == FR_PQ || kind == FR_FIFO || kind == FR_LIFO,
            dom.wf(),
            terrain@.len() == dom.size(),
            gw <= 2,
            hw <= 6,
            1 <= time <= 0x1_0000_0000,
            u < dom.size(),
            old(self).stat@[u as int] == S_CLOSED,
            old(self).g@[u as int] + MAX_STEP <= time * MAX_STEP,
            old(self).inv(*dom, terrain@, diagonals, kind, gw as int, hw as int, origin, old(self).target as int, time, -1, u as int),
            old(cells)@.len() == dom.size(),
        ensures
            final(self).inv(*dom, terrain@, diagonals, kind, gw as int, hw as int, origin, old(self).target as int, time, -1, u as int),
            grown(*old(self), *final(self), old(cells)@, final(cells)@, dom.size(), kind),
            open_set(final(self).stat@) == if o {
                open_set(old(self).stat@).insert(offered(*dom, terrain@, u, j as int, diagonals).unwrap().0)
            } else {
                open_set(old(self).stat@)
            },
            o ==> !open_set(old(self).stat@).contains(offered(*dom, terrain@, u, j as int, diagonals).unwrap().0),
            offered(*dom, terrain@, u, j as int, diagonals) matches Some((v, c)) ==> {
                &&& final(self).stat@[v] != UNSEEN
                &&& kind == FR_PQ && final(self).stat@[v] != S_CLOSED ==> final(self).g@[v] <= old(self).g@[u as int] + c
                    * terrain@[v]
            },
            (final(self).state(), final(cells)@, o) == offer_state(
                old(self).state(),
                old(cells)@,
                *dom,
                terrain@,
                diagonals,
                old(self).target as int,
                kind,
                gw as int,
                hw as int,
                u,
                j as int,
            ),
    {
        let ghost s0 = *self;
        proof {
            lemma_inv_shape(s0, *dom, terrain@, diagonals, kind, gw as int, hw as int, origin, s0.target as int, time, -1, u as int);
        }
        match offered_exec(dom, terrain, u, j, diagonals) {
            Some((ni, kk)) => {
                if self.stat[ni as usize] != S_CLOSED {
                    let o = self.relax(cells, dom, terrain, diagonals, kind, gw, hw, u, ni, kk, Ghost(origin), Ghost(time));
                    proof {
                        let vi = ni as int;
                        if o {
                            assert(self.stat@ =~= s0.stat@.update(vi, S_OPEN));
                            lemma_status_update(s0.stat@, vi, S_OPEN);
                        } else {
                            assert(self.stat@ =~= s0.stat@);
                        }
                        assert(closed_set(self.stat@) =~= closed_set(s0.stat@));
                        assert forall|w: int| 0 <= w < dom.size() && #[trigger] s0.stat@[w] == S_CLOSED implies self.g@[w] == s0.g@[w]
                            && self.parent@[w] == s0.parent@[w] by {
                            assert(w != vi);
                            assert(self.stat@[w] == s0.stat@[w]);
                        }
                        if kind == FR_PQ {
                            assert forall|w: int| 0 <= w < dom.size() implies #[trigger] self.g@[w] <= s0.g@[w] by {
                                if w != vi {
                                    assert(self.stat@[w] == s0.stat@[w]);
                                }
                            }
                        }
                    }
                    return o;
                }
            },
            None => {},
        }
        proof {
            assert(closed_set(self.stat@) =~= closed_set(s0.stat@));
        }
        false
    }

    /// Offer every allowed move out of the closed cell `u` to the frontier.
    /// Returns how many cells were newly discovered.
    fn expand(
        &mut self,
        cells: &mut Vec<u8>,
        dom: &Domain,
        terrain: &[u8],
        diagonals: bool,
        kind: u8,
        gw: u128,
        hw: u128,
        u: u32,
        Ghost(origin): Ghost<int>,
        Ghost(time): Ghost<int>,
    ) -> (opened: u32)
        requires
            dom.wf(),
            terrain@.len() == dom.size(),
            kind == FR_PQ || kind == FR_FIFO || kind == FR_LIFO,
            gw <= 2,
            hw <= 6,
            1 <= time <= 0x1_0000_0000,
            u < dom.size(),
            old(self).stat@[u as int] == S_CLOSED,
            old(self).g@[u as int] + MAX_STEP <= time * MAX_STEP,
            old(self).inv(*dom, terrain@, diagonals, kind, gw as int, hw as int, origin, old(self).target as int, time, -1, u as int),
            old(cells)@.len() == dom.size(),
        ensures
            final(self).inv(*dom, terrain@, diagonals, kind, gw as int, hw as int, origin, old(self).target as int, time, -1, -1),
            grown(*old(self), *final(self), old(cells)@, final(cells)@, dom.size(), kind),
            open_set(final(self).stat@).len() == open_set(old(self).stat@).len() + opened,
            (final(self).state(), final(cells)@, opened as int) == expand_state(
                old(self).state(),
                old(cells)@,
                *dom,
                terrain@,
                diagonals,
                old(self).target as int,
                kind,
                gw as int,
                hw as int,
                u,
                27,
            ),
    {
        let ghost s0 = *self;
        let ghost cells0 = cells@;
        let ghost size = dom.size();
        let ghost target = self.target as int;
        let mut opened: u32 = 0;
        let mut j: i32 = 0;
        proof {
            reveal(Search::inv);
            lemma_status_sets_finite(s0.stat@);
            assert(closed_set(self.stat@) =~= closed_set(s0.stat@));
        }
        while j < 27
            invariant
                dom.wf(),
                terrain@.len() == size,
                size == dom.size(),
                kind == FR_PQ || kind == FR_FIFO || kind == FR_LIFO,
                gw <= 2,
                hw <= 6,
                1 <= time <= 0x1_0000_0000,
                u < size,
                0 <= j <= 27,
                opened <= j,
                cells0.len() == size,
                s0.stat@[u as int] == S_CLOSED,
                s0.g@[u as int] + MAX_STEP <= time * MAX_STEP,
                self.inv(*dom, terrain@, diagonals, kind, gw as int, hw as int, origin, target, time, -1, u as int),
                target == s0.target as int,
                grown(s0, *self, cells0, cells@, size, kind),
                open_set(self.stat@).finite(),
                open_set(self.stat@).len() == open_set(s0.stat@).len() + opened,
                (self.state(), cells@, opened as int) == expand_state(
                    s0.state(),
                    cells0,
                    *dom,
                    terrain@,
                    diagonals,
                    target,
                    kind,
                    gw as int,
                    hw as int,
                    u,
                    j as nat,
                ),
                forall|k: int|
                    0 <= k < j && (#[trigger] offered(*dom, terrain@, u, k, diagonals)) is Some ==> {
                        let (v, c) = offered(*dom, terrain@, u, k, diagonals).unwrap();
                        &&& self.stat@[v] != UNSEEN
                        &&& kind == FR_PQ && self.stat@[v] != S_CLOSED ==> self.g@[v] <= s0.g@[u as int] + c * terrain@[v]
                    },
            decreases 27 - j,
        {
            let ghost sb = *self;
            let ghost cb = cells@;
            proof {
                assert(sb.stat@[u as int] == S_CLOSED);
                assert(sb.g@[u as int] == s0.g@[u as int]);
            }
            let o = self.offer(cells, dom, terrain, diagonals, kind, gw, hw, u, j, Ghost(origin), Ghost(time));
            proof {
                if o {
                    vstd::set::axiom_set_insert_len(open_set(sb.stat@), offered(*dom, terrain@, u, j as int, diagonals).unwrap().0);
                }
                assert forall|k: int|
                    0 <= k < j + 1 && (#[trigger] offered(*dom, terrain@, u, k, diagonals)) is Some implies {
                        let (v, c) = offered(*dom, terrain@, u, k, diagonals).unwrap();
                        &&& self.stat@[v] != UNSEEN
                        &&& kind == FR_PQ && self.stat@[v] != S_CLOSED ==> self.g@[v] <= s0.g@[u as int] + c * terrain@[v]
                    } by {
                    let (v, c) = offered(*dom, terrain@, u, k, diagonals).unwrap();
                    lemma_offered_in_box(*dom, terrain@, u, k, diagonals);
                    if k < j {
                        assert(sb.stat@[v] != UNSEEN);
                        if kind == FR_PQ {
                            assert(self.g@[v] <= sb.g@[v]);
                        }
                    }
                }
                assert forall|i: int| 0 <= i < size implies #[trigger] cells@[i] == if s0.stat@[i] == UNSEEN && self.stat@[i]
                    != UNSEEN && cells0[i] == FREE {
                    OPEN
                } else {
                    cells0[i]
                } by {
                    assert(cb[i] == if s0.stat@[i] == UNSEEN && sb.stat@[i] != UNSEEN && cells0[i] == FREE {
                        OPEN
                    } else {
                        cells0[i]
                    });
                }
                assert forall|w: int| 0 <= w < size && #[trigger] s0.stat@[w] == S_CLOSED implies self.g@[w] == s0.g@[w]
                    && self.parent@[w] == s0.parent@[w] by {
                    assert(sb.stat@[w] == S_CLOSED);
                }
                if kind == FR_PQ {
                    assert forall|w: int| 0 <= w < size implies #[trigger] self.g@[w] <= s0.g@[w] by {
                        assert(self.g@[w] <= sb.g@[w]);
                    }
                }
                assert(grown(s0, *self, cells0, cells@, size, kind));
            }
            if o {
                opened = opened + 1;
            }
            j += 1;
        }
        proof {
            reveal(Search::inv);
            let stat = self.stat@;
            let g = self.g@;
            assert forall|a: int, b: int|
                0 <= a < size && #[trigger] stat[a] == S_CLOSED && #[trigger] edge(*dom, terrain@, a, b, diagonals) implies {
                &&& 0 <= b < size
                &&& stat[b] != UNSEEN
                &&& kind == FR_PQ && stat[b] != S_CLOSED ==> g[b] <= g[a] + edge_cost(*dom, terrain@, a, b)
            } by {
                if a == u {
                    let k = crate::route::lemma_adjacent_stencil(*dom, u as int, b, diagonals);
                    reveal(offered);
                    assert(offered(*dom, terrain@, u, k, diagonals) is Some);
                    assert(g[a] == s0.g@[a]);
                }
            }
            assert(self.inv(*dom, terrain@, diagonals, kind, gw as int, hw as int, origin, target, time, -1, -1));
        }
        opened
    }
}

} // verus!

verus! {

/// The search invariant keeps holding as expansions go on.
proof fn lemma_inv_later(
    s: Search,
    dom: Domain,
    terrain: Seq<u8>,
    diagonals: bool,
    kind: u8,
    gw: int,
    hw: int,
    origin: int,
    target: int,
    time: int,
)
    requires
        0 <= time,
        s.inv(dom, terrain, diagonals, kind, gw, hw, origin, target, time, -1, -1),
    ensures
        s.inv(dom, terrain, diagonals, kind, gw, hw, origin, target, time + 1, -1, -1),
{
    reveal(Search::inv);
    assert(time * MAX_STEP <= (time + 1) * MAX_STEP);
}

/// The parent forest the invariant carries over the closed cells and the
/// origin.
proof fn lemma_inv_forest(
    s: Search,
    dom: Domain,
    terrain: Seq<u8>,
    diagonals: bool,
    kind: u8,
    gw: int,
    hw: int,
    origin: int,
    target: int,
    time: int,
    hole: int,
    pending: int,
)
    requires
        s.inv(dom, terrain, diagonals, kind, gw, hw, origin, target, time, hole, pending),
    ensures
        parent_forest(dom, terrain, diagonals, origin, s.parent@, s.rank@, s.members(origin)),
        forall|v: int| #[trigger] s.members(origin).contains(v) <==> (v == origin || (0 <= v < dom.size() && s.stat@[v] == S_CLOSED)),
        forall|v: int| #[trigger] s.members(origin).contains(v) && v != origin ==> passable(dom, terrain, v),
{
    reveal(Search::inv);
}

/// A sequence of legal steps has a cost.
pub proof fn lemma_legal_cost(dom: Domain, terrain: Seq<u8>, p: Seq<u32>, diagonals: bool)
    requires
        forall|i: int| 0 < i < p.len() ==> #[trigger] legal_step(dom, p[i - 1] as int, p[i] as int, diagonals),
    ensures
        path_cost_spec(dom, terrain, p) is Some,
    decreases p.len(),
{
    if p.len() > 1 {
        let q = p.subrange(0, p.len() - 1);
        assert forall|i: int| 0 < i < q.len() implies #[trigger] legal_step(dom, q[i - 1] as int, q[i] as int, diagonals) by {
            assert(legal_step(dom, p[i - 1] as int, p[i] as int, diagonals));
        }
        lemma_legal_cost(dom, terrain, q, diagonals);
        assert(legal_step(dom, p[p.len() - 2] as int, p[p.len() - 1] as int, diagonals));
    }
}

/// A walk from the start stays on open cells of the terrain with its
/// endpoints freed, and takes legal steps.
pub proof fn lemma_walk_route(dom: Domain, terrain: Seq<u8>, p: Seq<u32>, diagonals: bool, start: u32, goal: u32)
    requires
        dom.wf(),
        terrain.len() == dom.size(),
        is_walk(dom, terrain, p, diagonals),
        p[0] == start,
        start < dom.size(),
        terrain[start as int] != T_VOID,
    ensures
        forall|i: int| 0 <= i < p.len() ==> #[trigger] open_cell(endpoints_freed(terrain, start as int, goal as int), p[i] as int),
        forall|i: int| 0 < i < p.len() ==> #[trigger] legal_step(dom, p[i - 1] as int, p[i] as int, diagonals),
        on_search_cells(dom, terrain, p, start as int, goal as int),
{
    let fr = endpoints_freed(terrain, start as int, goal as int);
    assert forall|i: int| 0 <= i < p.len() implies #[trigger] open_cell(fr, p[i] as int) by {
        if i > 0 {
            assert(edge(dom, terrain, p[i - 1] as int, p[i] as int, diagonals));
        }
    }
    assert forall|i: int| 0 < i < p.len() implies #[trigger] legal_step(dom, p[i - 1] as int, p[i] as int, diagonals) by {
        assert(edge(dom, terrain, p[i - 1] as int, p[i] as int, diagonals));
        crate::route::lemma_adjacent_step(dom, p[i - 1] as int, p[i] as int, diagonals);
    }
    assert forall|i: int| 0 <= i < p.len() implies #[trigger] passable(dom, terrain, p[i] as int) || p[i] == start || p[i]
        == goal by {
        if i > 0 {
            assert(edge(dom, terrain, p[i - 1] as int, p[i] as int, diagonals));
        }
    }
}

/// `q` climbs the parent links from its first cell to a cell with no
/// parent, staying inside the box.
pub open spec fn climbs(parent: Seq<u32>, q: Seq<u32>, size: int) -> bool {
    &&& q.len() >= 1
    &&& forall|i: int| 0 <= i < q.len() ==> #[trigger] q[i] < size
    &&& forall|i: int| 0 < i < q.len() ==> #[trigger] q[i] == parent[q[i - 1] as int]
    &&& parent[q.last() as int] == NO_PARENT
}

/// The climb up the parent links from `from`.
pub open spec fn climb(parent: Seq<u32>, from: u32, size: int) -> Seq<u32> {
    choose|q: Seq<u32>| climbs(parent, q, size) && q[0] == from
}

/// Two climbs from the same cell agree up to index `i`.
proof fn lemma_climbs_prefix(parent: Seq<u32>, q1: Seq<u32>, q2: Seq<u32>, size: int, i: int)
    requires
        climbs(parent, q1, size),
        climbs(parent, q2, size),
        q1[0] == q2[0],
        0 <= i < q1.len(),
        i < q2.len(),
    ensures
        q1[i] == q2[i],
    decreases i,
{
    if i > 0 {
        lemma_climbs_prefix(parent, q1, q2, size, i - 1);
    }
}

/// There is one climb from a cell, and `climb` is it.
proof fn lemma_climb_unique(parent: Seq<u32>, q: Seq<u32>, size: int)
    requires
        climbs(parent, q, size),
        size <= u32::MAX,
    ensures
        climb(parent, q[0], size) == q,
{
    let c = climb(parent, q[0], size);
    assert(climbs(parent, c, size) && c[0] == q[0]);
    if c.len() < q.len() {
        lemma_climbs_prefix(parent, q, c, size, c.len() - 1);
        let i = c.len() as int;
        assert(q[i] == parent[q[i - 1] as int]);
    } else if q.len() < c.len() {
        lemma_climbs_prefix(parent, q, c, size, q.len() - 1);
        let i = q.len() as int;
        assert(c[i] == parent[c[i - 1] as int]);
    }
    assert forall|i: int| 0 <= i < q.len() implies c[i] == q[i] by {
        lemma_climbs_prefix(parent, q, c, size, i);
    }
    assert(c =~= q);
}


/// Append the parent chain of `from` in a forest rooted at `goal`, so the
/// route runs on from `from` to `goal`.
fn extend_to_root(
    path: &mut Vec<u32>,
    parent: &Vec<u32>,
    from: u32,
    Ghost(dom): Ghost<Domain>,
    Ghost(terrain): Ghost<Seq<u8>>,
    Ghost(diagonals): Ghost<bool>,
    Ghost(start): Ghost<u32>,
    Ghost(goal): Ghost<u32>,
    Ghost(rank): Ghost<Seq<int>>,
    Ghost(member): Ghost<Set<int>>,
)
    requires
        dom.wf(),
        terrain.len() == dom.size(),
        goal < dom.size(),
        terrain[goal as int] != T_VOID,
        parent_forest(dom, terrain, diagonals, goal as int, parent@, rank, member),
        forall|v: int| #[trigger] member.contains(v) && v != goal ==> passable(dom, terrain, v),
        member.contains(from as int),
        old(path)@.len() >= 1,
        old(path)@[0] == start,
        old(path)@.last() == from,
        forall|i: int| 0 <= i < old(path)@.len() ==> #[trigger] open_cell(endpoints_freed(terrain, start as int, goal as int), old(path)@[i] as int),
        forall|i: int| 0 < i < old(path)@.len() ==> #[trigger] legal_step(dom, old(path)@[i - 1] as int, old(path)@[i] as int, diagonals),
        on_search_cells(dom, terrain, old(path)@, start as int, goal as int),
    ensures
        is_route(dom, endpoints_freed(terrain, start as int, goal as int), final(path)@, start, goal, diagonals),
        on_search_cells(dom, terrain, final(path)@, start as int, goal as int),
        final(path)@ == old(path)@ + climb(parent@, from, dom.size()).drop_first(),
{
    let ghost fr = endpoints_freed(terrain, start as int, goal as int);
    let mut c = from;
    let ghost mut q: Seq<u32> = seq![from];
    proof {
        assert(old(path)@ + q.drop_first() =~= old(path)@);
    }
    while parent[c as usize] != u32::MAX
        invariant
            dom.wf(),
            terrain.len() == dom.size(),
            fr == endpoints_freed(terrain, start as int, goal as int),
            goal < dom.size(),
            terrain[goal as int] != T_VOID,
            parent_forest(dom, terrain, diagonals, goal as int, parent@, rank, member),
            forall|v: int| #[trigger] member.contains(v) && v != goal ==> passable(dom, terrain, v),
            member.contains(c as int),
            path@.len() >= 1,
            path@[0] == start,
            path@.last() == c,
            forall|i: int| 0 <= i < path@.len() ==> #[trigger] open_cell(fr, path@[i] as int),
            forall|i: int| 0 < i < path@.len() ==> #[trigger] legal_step(dom, path@[i - 1] as int, path@[i] as int, diagonals),
            on_search_cells(dom, terrain, path@, start as int, goal as int),
            q.len() >= 1,
            q[0] == from,
            q.last() == c,
            forall|i: int| 0 <= i < q.len() ==> #[trigger] q[i] < dom.size(),
            forall|i: int| 0 < i < q.len() ==> #[trigger] q[i] == parent@[q[i - 1] as int],
            path@ == old(path)@ + q.drop_first(),
        decreases rank[c as int],
    {
        let ghost p0 = path@;
        let ghost q0 = q;
        let nc = parent[c as usize];
        proof {
            assert(c != goal);
            assert(edge(dom, terrain, nc as int, c as int, diagonals));
            crate::route::lemma_adjacent_step(dom, nc as int, c as int, diagonals);
            assert(legal_step(dom, c as int, nc as int, diagonals));
        }
        path.push(nc);
        proof {
            assert(member.contains(nc as int));
            assert(fr.len() == terrain.len());
            assert(fr[nc as int] == if (nc == start || nc == goal) && terrain[nc as int] == T_OBST {
                1u8
            } else {
                terrain[nc as int]
            });
            if nc != goal {
                assert(passable(dom, terrain, nc as int));
            }
            assert(open_cell(fr, nc as int));
            assert forall|i: int| 0 <= i < path@.len() implies #[trigger] open_cell(fr, path@[i] as int) by {
                if i < p0.len() {
                    assert(path@[i] == p0[i]);
                }
            }
            assert forall|i: int| 0 < i < path@.len() implies #[trigger] legal_step(dom, path@[i - 1] as int, path@[i] as int, diagonals) by {
                if i < p0.len() {
                    assert(path@[i] == p0[i] && path@[i - 1] == p0[i - 1]);
                }
            }
            assert forall|i: int| 0 <= i < path@.len() implies #[trigger] passable(dom, terrain, path@[i] as int) || path@[i]
                == start || path@[i] == goal by {
                if i < p0.len() {
                    assert(path@[i] == p0[i]);
                }
            }
        }
        c = nc;
        proof {
            q = q.push(nc);
            assert(member.contains(nc as int));
            assert forall|i: int| 0 < i < q.len() implies #[trigger] q[i] == parent@[q[i - 1] as int] by {
                if i < q0.len() {
                    assert(q[i] == q0[i] && q[i - 1] == q0[i - 1]);
                }
            }
            assert forall|i: int| 0 <= i < q.len() implies #[trigger] q[i] < dom.size() by {
                if i < q0.len() {
                    assert(q[i] == q0[i]);
                }
            }
            assert(q.drop_first() =~= q0.drop_first().push(nc));
            assert(path@ =~= old(path)@ + q.drop_first());
        }
    }
    proof {
        assert(c == goal);
        assert(climbs(parent@, q, dom.size()));
        lemma_climb_unique(parent@, q, dom.size());
    }
}

} // verus!

verus! {

/// What a solver's next steps depend on besides its setup: the buffer,
/// both searches, whose turn it is, the expansion and frontier counts, and
/// the outcome so far (done, found, cost, path).
pub type SolverState = (Seq<u8>, SearchState, SearchState, usize, u32, u32, bool, bool, u128, Seq<u32>);

spec fn search_of(sv: SolverState, si: int) -> SearchState {
    if si == 0 {
        sv.1
    } else {
        sv.2
    }
}

spec fn with_search(sv: SolverState, si: int, st: SearchState) -> SolverState {
    if si == 0 {
        (sv.0, st, sv.2, sv.3, sv.4, sv.5, sv.6, sv.7, sv.8, sv.9)
    } else {
        (sv.0, sv.1, st, sv.3, sv.4, sv.5, sv.6, sv.7, sv.8, sv.9)
    }
}

/// The state after closing entry `e` of search `si`.
spec fn closed_step(sv: SolverState, two: bool, kind: u8, si: int, e: QEntry) -> SolverState {
    let sv1 = with_search(sv, si, close_state(search_of(sv, si), kind, e));
    (
        sv1.0.update(e.idx as int, CLOSED),
        sv1.1,
        sv1.2,
        if two { (1 - si) as usize } else { 0usize },
        (sv.4 + 1) as u32,
        (sv.5 - 1) as u32,
        sv.6,
        sv.7,
        sv.8,
        sv.9,
    )
}

/// The weighted cost of a path as the solver reports it.
spec fn cost_of(dom: Domain, terrain: Seq<u8>, p: Seq<u32>) -> u128 {
    match path_cost_spec(dom, terrain, p) {
        Some(c) => c as u128,
        None => 0,
    }
}

/// The state once path `p` is found.
spec fn finished(sv: SolverState, dom: Domain, terrain: Seq<u8>, p: Seq<u32>) -> SolverState {
    (
        Seq::new(sv.0.len(), |i: int| if p.contains(i as u32) { PATH } else { sv.0[i] }),
        sv.1,
        sv.2,
        sv.3,
        sv.4,
        sv.5,
        true,
        true,
        cost_of(dom, terrain, p),
        p,
    )
}

/// After closing cell `u` of search `si`: the path when the searches meet
/// or the goal closes, else the moves out of `u` offered.
spec fn after_step(
    sv: SolverState,
    dom: Domain,
    terrain: Seq<u8>,
    start: u32,
    goal: u32,
    diagonals: bool,
    algo: u8,
    si: int,
    u: u32,
) -> SolverState {
    let size = dom.size();
    let two = algo == ALGO_BISWARM;
    if two && search_of(sv, 1 - si).5[u as int] == S_CLOSED {
        finished(sv, dom, terrain, climb(sv.1.4, u, size).reverse() + climb(sv.2.4, u, size).drop_first())
    } else if !two && u == goal {
        finished(sv, dom, terrain, climb(sv.1.4, goal, size).reverse())
    } else {
        let target = if si == 0 {
            goal as int
        } else {
            start as int
        };
        let r = expand_state(
            search_of(sv, si),
            sv.0,
            dom,
            terrain,
            diagonals,
            target,
            frontier_kind_of(algo),
            weights_of(algo).0,
            weights_of(algo).1,
            u,
            27,
        );
        let sv1 = with_search(sv, si, r.0);
        (r.1, sv1.1, sv1.2, sv.3, sv.4, (sv.5 + r.2) as u32, sv.6, sv.7, sv.8, sv.9)
    }
}

/// One expansion from state `sv` of a search from `start` to `goal` with
/// the given adjacency and algorithm: take the next entry of the search
/// whose turn it is (of the other one when that frontier is empty), close
/// it, then finish or offer its moves; with nothing left to take, the
/// search is done.
pub closed spec fn step_state(
    sv: SolverState,
    dom: Domain,
    terrain: Seq<u8>,
    start: u32,
    goal: u32,
    diagonals: bool,
    algo: u8,
) -> SolverState {
    let first = sv.3 as int;
    let kind = frontier_kind_of(algo);
    let two = algo == ALGO_BISWARM;
    let p1 = pop_state(search_of(sv, first), kind);
    let sv1 = with_search(sv, first, p1.1);
    let other = 1 - first;
    let p2 = pop_state(search_of(sv1, other), kind);
    let retry = p1.0 is None && two;
    let si = if retry {
        other
    } else {
        first
    };
    let r = if retry {
        p2.0
    } else {
        p1.0
    };
    let svp = if retry {
        with_search(sv1, other, p2.1)
    } else {
        sv1
    };
    match r {
        None => (svp.0, svp.1, svp.2, svp.3, svp.4, svp.5, true, svp.7, svp.8, svp.9),
        Some(e) => after_step(closed_step(svp, two, kind, si, e), dom, terrain, start, goal, diagonals, algo, si, e.idx),
    }
}

/// The state `n` steps after `sv`, stopping once the search is done.
pub open spec fn steps_state(
    sv: SolverState,
    dom: Domain,
    terrain: Seq<u8>,
    start: u32,
    goal: u32,
    diagonals: bool,
    algo: u8,
    n: nat,
) -> SolverState
    decreases n,
{
    if n == 0 {
        sv
    } else {
        let p = steps_state(sv, dom, terrain, start, goal, diagonals, algo, (n - 1) as nat);
        if p.6 {
            p
        } else {
            step_state(p, dom, terrain, start, goal, diagonals, algo)
        }
    }
}

/// The number of steps a run allows: twice the cell count and a margin,
/// capped to the expansion counter's range.
pub open spec fn run_budget(dom: Domain) -> nat {
    let b = 2 * dom.size() + 8;
    if b <= u32::MAX {
        b as nat
    } else {
        u32::MAX as nat
    }
}

/// The stack gives back its most recent entry whose cell is not closed,
/// dropping it and every closed entry above it.
proof fn lemma_pop_stack_last(l: Seq<QEntry>, stat: Seq<u8>, j: int)
    requires
        0 <= j < l.len(),
        stat[l[j].idx as int] != S_CLOSED,
        forall|k: int| j < k < l.len() ==> stat[#[trigger] l[k].idx as int] == S_CLOSED,
    ensures
        pop_stack(l, stat) == (Some(l[j]), l.subrange(0, j)),
    decreases l.len(),
{
    if j == l.len() - 1 {
        assert(l.drop_last() =~= l.subrange(0, j));
    } else {
        assert(stat[l[l.len() - 1].idx as int] == S_CLOSED);
        let l1 = l.drop_last();
        assert forall|k: int| j < k < l1.len() implies stat[#[trigger] l1[k].idx as int] == S_CLOSED by {
            assert(l1[k] == l[k]);
        }
        lemma_pop_stack_last(l1, stat, j);
        assert(l1.subrange(0, j) =~= l.subrange(0, j));
    }
}

/// Moves out of a cell offered to a stack change no costs or parents, and
/// close and reopen nothing.
proof fn lemma_expand_stack(
    st: SearchState,
    cells: Seq<u8>,
    dom: Domain,
    terrain: Seq<u8>,
    diagonals: bool,
    target: int,
    gw: int,
    hw: int,
    u: u32,
    k: nat,
)
    requires
        st.5.len() == dom.size(),
    ensures
        ({
            let r = expand_state(st, cells, dom, terrain, diagonals, target, FR_LIFO, gw, hw, u, k).0;
            &&& r.3 == st.3
            &&& r.4 == st.4
            &&& r.5.len() == st.5.len()
            &&& forall|v: int| 0 <= v < st.5.len() ==> (#[trigger] r.5[v] == S_CLOSED <==> st.5[v] == S_CLOSED)
        }),
    decreases k,
{
    if k > 0 {
        lemma_expand_stack(st, cells, dom, terrain, diagonals, target, gw, hw, u, (k - 1) as nat);
        let r = expand_state(st, cells, dom, terrain, diagonals, target, FR_LIFO, gw, hw, u, (k - 1) as nat);
        let o = offer_state(r.0, r.1, dom, terrain, diagonals, target, FR_LIFO, gw, hw, u, k - 1);
        assert(expand_state(st, cells, dom, terrain, diagonals, target, FR_LIFO, gw, hw, u, k).0 == o.0);
        match offered(dom, terrain, u, k - 1, diagonals) {
            Some((v, c)) => {
                if r.0.5[v] != S_CLOSED {
                    reveal(offered);
                    assert(crate::route::passable(dom, terrain, v));
                    assert(0 <= v < r.0.5.len());
                    let stat = r.0.5;
                    let ns = if stat[v] == UNSEEN {
                        stat.update(v, S_OPEN)
                    } else {
                        stat
                    };
                    assert(o.0.5 == ns);
                    assert(o.0.3 == r.0.3 && o.0.4 == r.0.4);
                    assert forall|w: int| 0 <= w < st.5.len() implies (#[trigger] o.0.5[w] == S_CLOSED <==> st.5[w]
                        == S_CLOSED) by {
                        assert(r.0.5[w] == S_CLOSED <==> st.5[w] == S_CLOSED);
                        if w == v {
                            assert(ns[w] != S_CLOSED);
                        } else {
                            assert(ns[w] == stat[w]);
                        }
                    }
                }
            },
            None => {},
        }
    }
}

/// Moves out of a cell offered to any frontier close and reopen nothing:
/// a cell is closed after them exactly when it was before.
proof fn lemma_expand_keeps_closed(
    st: SearchState,
    cells: Seq<u8>,
    dom: Domain,
    terrain: Seq<u8>,
    diagonals: bool,
    target: int,
    kind: u8,
    gw: int,
    hw: int,
    u: u32,
    k: nat,
)
    requires
        st.5.len() == dom.size(),
    ensures
        ({
            let r = expand_state(st, cells, dom, terrain, diagonals, target, kind, gw, hw, u, k).0;
            &&& r.5.len() == st.5.len()
            &&& forall|v: int| 0 <= v < st.5.len() ==> (#[trigger] r.5[v] == S_CLOSED <==> st.5[v] == S_CLOSED)
        }),
    decreases k,
{
    if k > 0 {
        lemma_expand_keeps_closed(st, cells, dom, terrain, diagonals, target, kind, gw, hw, u, (k - 1) as nat);
        let r = expand_state(st, cells, dom, terrain, diagonals, target, kind, gw, hw, u, (k - 1) as nat);
        let o = offer_state(r.0, r.1, dom, terrain, diagonals, target, kind, gw, hw, u, k - 1);
        assert(expand_state(st, cells, dom, terrain, diagonals, target, kind, gw, hw, u, k).0 == o.0);
        match offered(dom, terrain, u, k - 1, diagonals) {
            Some((v, c)) => {
                if r.0.5[v] != S_CLOSED {
                    reveal(offered);
                    assert(crate::route::passable(dom, terrain, v));
                    let stat = r.0.5;
                    assert forall|w: int| 0 <= w < st.5.len() implies (#[trigger] o.0.5[w] == S_CLOSED <==> st.5[w]
                        == S_CLOSED) by {
                        assert(r.0.5[w] == S_CLOSED <==> st.5[w] == S_CLOSED);
                        if w != v {
                            assert(stat.update(v, S_OPEN)[w] == stat[w]);
                        }
                    }
                }
            },
            None => {},
        }
    }
}

/// Breadth-first search takes its frontier first in, first out. A step of
/// a running breadth-first search closes the cell of the oldest entry on
/// its queue and closes no other cell.
pub proof fn lemma_bfs_closes_oldest(
    sv: SolverState,
    dom: Domain,
    terrain: Seq<u8>,
    start: u32,
    goal: u32,
    diagonals: bool,
)
    requires
        !sv.6,
        sv.3 == 0,
        sv.1.1.len() > 0,
        sv.1.5.len() == dom.size(),
        (sv.1.1[0].idx as int) < sv.1.5.len(),
    ensures
        ({
            let e = sv.1.1[0];
            let next = step_state(sv, dom, terrain, start, goal, diagonals, ALGO_BFS).1;
            &&& next.5[e.idx as int] == S_CLOSED
            &&& forall|v: int|
                0 <= v < sv.1.5.len() && v != e.idx ==> (#[trigger] next.5[v] == S_CLOSED <==> sv.1.5[v] == S_CLOSED)
        }),
{
    let e = sv.1.1[0];
    let kind = frontier_kind_of(ALGO_BFS);
    let p1 = pop_state(search_of(sv, 0), kind);
    assert(p1.0 == Some(e));
    let svp = with_search(sv, 0, p1.1);
    let c = closed_step(svp, false, kind, 0, e);
    let u = e.idx as int;
    assert(c.1.5 == sv.1.5.update(u, S_CLOSED));
    lemma_expand_keeps_closed(c.1, c.0, dom, terrain, diagonals, goal as int, kind, weights_of(ALGO_BFS).0,
        weights_of(ALGO_BFS).1, e.idx, 27);
    assert(step_state(sv, dom, terrain, start, goal, diagonals, ALGO_BFS) == after_step(c, dom, terrain, start, goal,
        diagonals, ALGO_BFS, 0, e.idx));
}

/// The weighted searches (A*, Dijkstra, Greedy, the Swarms) take the
/// entry their heap orders first: when that entry's cell is still open, a
/// step from the start's side closes exactly that cell.
pub proof fn lemma_heap_closes_least(
    sv: SolverState,
    dom: Domain,
    terrain: Seq<u8>,
    start: u32,
    goal: u32,
    diagonals: bool,
    algo: u8,
)
    requires
        algo <= ALGO_BISWARM,
        !sv.6,
        sv.3 == 0,
        sv.1.0.len() > 0,
        sv.1.5.len() == dom.size(),
        (least(sv.1.0).idx as int) < sv.1.5.len(),
        sv.1.5[least(sv.1.0).idx as int] == S_OPEN,
    ensures
        ({
            let c = least(sv.1.0).idx;
            let next = step_state(sv, dom, terrain, start, goal, diagonals, algo).1;
            &&& next.5[c as int] == S_CLOSED
            &&& forall|v: int|
                0 <= v < sv.1.5.len() && v != c ==> (#[trigger] next.5[v] == S_CLOSED <==> sv.1.5[v] == S_CLOSED)
        }),
{
    let kind = frontier_kind_of(algo);
    assert(kind == FR_PQ);
    let st = sv.1;
    let i = least(st.0).idx;
    let e = QEntry { idx: i, parent: st.4[i as int], g: st.3[i as int] };
    let p1 = pop_state(search_of(sv, 0), kind);
    assert(p1.0 == Some(e));
    let svp = with_search(sv, 0, p1.1);
    let two = algo == ALGO_BISWARM;
    let c = closed_step(svp, two, kind, 0, e);
    assert(c.1.5 == sv.1.5.update(i as int, S_CLOSED));
    lemma_expand_keeps_closed(c.1, c.0, dom, terrain, diagonals, goal as int, kind, weights_of(algo).0,
        weights_of(algo).1, i, 27);
    assert(step_state(sv, dom, terrain, start, goal, diagonals, algo) == after_step(c, dom, terrain, start, goal,
        diagonals, algo, 0, i));
}

/// Depth-first search takes its frontier last in, first out. A step of a
/// running depth-first search closes the cell of the most recently pushed
/// stack entry whose cell is not closed yet, giving it that entry's parent
/// and hop count, and closes no other cell.
pub proof fn lemma_dfs_closes_last_pushed(
    sv: SolverState,
    dom: Domain,
    terrain: Seq<u8>,
    start: u32,
    goal: u32,
    diagonals: bool,
    j: int,
)
    requires
        !sv.6,
        sv.3 == 0,
        0 <= j < sv.1.2.len(),
        (sv.1.2[j].idx as int) < sv.1.3.len(),
        (sv.1.2[j].idx as int) < sv.1.4.len(),
        sv.1.5.len() == dom.size(),
        (sv.1.2[j].idx as int) < sv.1.5.len(),
        sv.1.5[sv.1.2[j].idx as int] != S_CLOSED,
        forall|k: int| j < k < sv.1.2.len() ==> sv.1.5[#[trigger] sv.1.2[k].idx as int] == S_CLOSED,
    ensures
        ({
            let e = sv.1.2[j];
            let next = step_state(sv, dom, terrain, start, goal, diagonals, ALGO_DFS).1;
            &&& next.5[e.idx as int] == S_CLOSED
            &&& next.4[e.idx as int] == e.parent
            &&& next.3[e.idx as int] == e.g
            &&& forall|v: int|
                0 <= v < sv.1.5.len() && v != e.idx ==> (#[trigger] next.5[v] == S_CLOSED <==> sv.1.5[v] == S_CLOSED)
        }),
{
    let e = sv.1.2[j];
    lemma_pop_stack_last(sv.1.2, sv.1.5, j);
    let kind = frontier_kind_of(ALGO_DFS);
    let p1 = pop_state(search_of(sv, 0), kind);
    assert(p1.0 == Some(e));
    let svp = with_search(sv, 0, p1.1);
    let c = closed_step(svp, false, kind, 0, e);
    let u = e.idx as int;
    assert(c.1.5 == sv.1.5.update(u, S_CLOSED));
    assert(c.1.4 == sv.1.4.update(u, e.parent));
    assert(c.1.3 == sv.1.3.update(u, e.g));
    let size = dom.size();
    let target = goal as int;
    lemma_expand_stack(c.1, c.0, dom, terrain, diagonals, target, weights_of(ALGO_DFS).0, weights_of(ALGO_DFS).1, e.idx, 27);
    assert(step_state(sv, dom, terrain, start, goal, diagonals, ALGO_DFS) == after_step(c, dom, terrain, start, goal, diagonals, ALGO_DFS, 0, e.idx));
}

/// Once a search is done, further steps change nothing.
pub proof fn lemma_steps_settle(sv: SolverState, dom: Domain, terrain: Seq<u8>, start: u32, goal: u32, diagonals: bool, algo: u8, n: nat, m: nat)
    requires
        n <= m,
        steps_state(sv, dom, terrain, start, goal, diagonals, algo, n).6,
    ensures
        steps_state(sv, dom, terrain, start, goal, diagonals, algo, m) == steps_state(sv, dom, terrain, start, goal, diagonals, algo, n),
    decreases m,
{
    if m > n {
        lemma_steps_settle(sv, dom, terrain, start, goal, diagonals, algo, n, (m - 1) as nat);
    }
}

/// Taking `a` steps and then `b` more is taking `a + b` steps.
pub proof fn lemma_steps_add(sv: SolverState, dom: Domain, terrain: Seq<u8>, start: u32, goal: u32, diagonals: bool, algo: u8, a: nat, b: nat)
    ensures
        steps_state(steps_state(sv, dom, terrain, start, goal, diagonals, algo, a), dom, terrain, start, goal, diagonals, algo, b) == steps_state(sv, dom, terrain, start, goal, diagonals, algo, a + b),
    decreases b,
{
    if b > 0 {
        lemma_steps_add(sv, dom, terrain, start, goal, diagonals, algo, a, (b - 1) as nat);
        assert((a + b - 1) as nat == a + (b - 1) as nat);
    }
}

/// Any two runs from one state that end with the search done end in the
/// same state, however many steps each was allowed.
pub proof fn lemma_finished_runs_agree(sv: SolverState, dom: Domain, terrain: Seq<u8>, start: u32, goal: u32, diagonals: bool, algo: u8, n: nat, m: nat)
    requires
        steps_state(sv, dom, terrain, start, goal, diagonals, algo, n).6,
        steps_state(sv, dom, terrain, start, goal, diagonals, algo, m).6,
    ensures
        steps_state(sv, dom, terrain, start, goal, diagonals, algo, n) == steps_state(sv, dom, terrain, start, goal, diagonals, algo, m),
{
    if n <= m {
        lemma_steps_settle(sv, dom, terrain, start, goal, diagonals, algo, n, m);
    } else {
        lemma_steps_settle(sv, dom, terrain, start, goal, diagonals, algo, m, n);
    }
}

/// A step from a state that is not done and has found nothing either
/// closes a cell, counting one more expansion and finishing only with a
/// path, or finds nothing left to close and finishes without one.
proof fn lemma_count_step(p: SolverState, dom: Domain, terrain: Seq<u8>, start: u32, goal: u32, diagonals: bool, algo: u8)
    requires
        !p.6,
        !p.7,
        p.4 < u32::MAX,
    ensures
        ({
            let q = step_state(p, dom, terrain, start, goal, diagonals, algo);
            &&& !q.6 ==> q.4 == p.4 + 1 && !q.7
            &&& q.6 && q.7 ==> q.4 == p.4 + 1
            &&& q.6 && !q.7 ==> q.4 == p.4
        }),
{
}

/// While a search is not done it has found nothing, and each step has
/// counted one expansion.
proof fn lemma_count(sv: SolverState, dom: Domain, terrain: Seq<u8>, start: u32, goal: u32, diagonals: bool, algo: u8, j: nat)
    requires
        !sv.6,
        !sv.7,
        sv.4 + j <= u32::MAX,
    ensures
        !steps_state(sv, dom, terrain, start, goal, diagonals, algo, j).6 ==> steps_state(sv, dom, terrain, start, goal, diagonals, algo, j).4 == sv.4 + j && !steps_state(sv, dom, terrain, start, goal, diagonals, algo, j).7,
    decreases j,
{
    if j > 0 {
        lemma_count(sv, dom, terrain, start, goal, diagonals, algo, (j - 1) as nat);
        let p = steps_state(sv, dom, terrain, start, goal, diagonals, algo, (j - 1) as nat);
        if !p.6 {
            lemma_count_step(p, dom, terrain, start, goal, diagonals, algo);
        }
    }
}

/// A search that is not done at the start and done after `b` steps is done
/// for the first time after some `m` steps, `1 <= m <= b`.
proof fn lemma_first_done(sv: SolverState, dom: Domain, terrain: Seq<u8>, start: u32, goal: u32, diagonals: bool, algo: u8, b: nat) -> (m: nat)
    requires
        !sv.6,
        steps_state(sv, dom, terrain, start, goal, diagonals, algo, b).6,
    ensures
        1 <= m <= b,
        steps_state(sv, dom, terrain, start, goal, diagonals, algo, m).6,
        !steps_state(sv, dom, terrain, start, goal, diagonals, algo, (m - 1) as nat).6,
    decreases b,
{
    if !steps_state(sv, dom, terrain, start, goal, diagonals, algo, (b - 1) as nat).6 {
        b
    } else {
        lemma_first_done(sv, dom, terrain, start, goal, diagonals, algo, (b - 1) as nat)
    }
}

/// How a run ends: a search that is not done and has found nothing, with
/// `e` expansions counted, and is done after `b` steps, has counted `e + k`
/// expansions when done. It is not done during its first `k` steps, each
/// of which counts one expansion; it is done after `k + 1` steps (the last
/// step may find the frontier empty and close nothing), and already after
/// `k` when it found a path.
pub proof fn lemma_finish_count(sv: SolverState, dom: Domain, terrain: Seq<u8>, start: u32, goal: u32, diagonals: bool, algo: u8, b: nat)
    requires
        !sv.6,
        !sv.7,
        sv.4 + b <= u32::MAX,
        steps_state(sv, dom, terrain, start, goal, diagonals, algo, b).6,
    ensures
        ({
            let f = steps_state(sv, dom, terrain, start, goal, diagonals, algo, b);
            let k = f.4 - sv.4;
            &&& 0 <= k <= b
            &&& steps_state(sv, dom, terrain, start, goal, diagonals, algo, (k + 1) as nat) == f
            &&& f.7 ==> steps_state(sv, dom, terrain, start, goal, diagonals, algo, k as nat) == f
            &&& steps_state(sv, dom, terrain, start, goal, diagonals, algo, k as nat).4 == f.4
            &&& forall|j: nat| j < k ==> !(#[trigger] steps_state(sv, dom, terrain, start, goal, diagonals, algo, j)).6 && steps_state(sv, dom, terrain, start, goal, diagonals, algo, j).4 == sv.4 + j
        }),
{
    let m = lemma_first_done(sv, dom, terrain, start, goal, diagonals, algo, b);
    lemma_count(sv, dom, terrain, start, goal, diagonals, algo, (m - 1) as nat);
    let p = steps_state(sv, dom, terrain, start, goal, diagonals, algo, (m - 1) as nat);
    lemma_count_step(p, dom, terrain, start, goal, diagonals, algo);
    lemma_steps_settle(sv, dom, terrain, start, goal, diagonals, algo, m, b);
    let f = steps_state(sv, dom, terrain, start, goal, diagonals, algo, b);
    let k = f.4 - sv.4;
    if f.7 {
        lemma_steps_settle(sv, dom, terrain, start, goal, diagonals, algo, m, (m + 1) as nat);
    }
    assert forall|j: nat| j < k implies !(#[trigger] steps_state(sv, dom, terrain, start, goal, diagonals, algo, j)).6 && steps_state(sv, dom, terrain, start, goal, diagonals, algo, j).4 == sv.4 + j by {
        if steps_state(sv, dom, terrain, start, goal, diagonals, algo, j).6 {
            lemma_steps_settle(sv, dom, terrain, start, goal, diagonals, algo, j, (m - 1) as nat);
        }
        lemma_count(sv, dom, terrain, start, goal, diagonals, algo, j);
    }
}

/// The state a fresh search of `terrain` from `start` to `goal` with the
/// given adjacency and algorithm reaches after `n` steps, walls under the
/// endpoints lifted.
pub open spec fn replay(dom: Domain, terrain: Seq<u8>, start: u32, goal: u32, diagonals: bool, algo: u8, n: nat) -> SolverState {
    steps_state(
        fresh_state(dom, terrain, start, goal, diagonals, algo),
        dom,
        endpoints_freed(terrain, start as int, goal as int),
        start,
        goal,
        diagonals,
        algo,
        n,
    )
}

/// A fresh search takes `n` expansions to finish: it is not done during
/// its first `n` steps, each of which counts one expansion, and is done
/// one step later with still `n` counted, or already after `n` steps when
/// it found a path.
pub open spec fn run_length(dom: Domain, terrain: Seq<u8>, start: u32, goal: u32, diagonals: bool, algo: u8, n: u32) -> bool {
    &&& forall|j: nat|
        j < n ==> !(#[trigger] replay(dom, terrain, start, goal, diagonals, algo, j)).6 && replay(
            dom,
            terrain,
            start,
            goal,
            diagonals,
            algo,
            j,
        ).4 == j
    &&& replay(dom, terrain, start, goal, diagonals, algo, n as nat).4 == n
    &&& replay(dom, terrain, start, goal, diagonals, algo, (n + 1) as nat).6
    &&& replay(dom, terrain, start, goal, diagonals, algo, (n + 1) as nat).4 == n
    &&& replay(dom, terrain, start, goal, diagonals, algo, (n + 1) as nat).7 ==> replay(dom, terrain, start, goal, diagonals, algo, n as nat).6
}

impl Solver {
    /// What the parts of the state are.
    pub proof fn lemma_state_parts(&self)
        ensures
            self.state().0 == self.cells_spec(),
            self.state().4 == self.expanded_spec(),
            self.state().5 == self.frontier_spec(),
            self.state().6 == self.done_spec(),
            self.state().7 == self.found_spec(),
            self.state().8 == self.cost_spec(),
            self.state().9 == self.path_spec(),
    {
    }
}

impl Solver {
    /// The state the solver's next steps depend on besides its setup.
    pub closed spec fn state(&self) -> SolverState {
        (
            self.cells@,
            self.fwd.state(),
            self.bwd.state(),
            self.turn,
            self.expanded,
            self.frontier,
            self.done,
            self.found,
            self.cost,
            self.path@,
        )
    }
}

impl Solver {
    /// Take the next closable entry of search `si`.
    fn pop_from(&mut self, si: usize, Ghost(dom): Ghost<Domain>, Ghost(terrain): Ghost<Seq<u8>>) -> (r: Option<QEntry>)
        requires
            dom.wf(),
            si == 0 || (si == 1 && old(self).two),
            old(self).frontier_kind == FR_PQ || old(self).frontier_kind == FR_FIFO || old(self).frontier_kind == FR_LIFO,
            old(self).g_w <= 2,
            old(self).h_w <= 6,
            old(self).fwd.inv(dom, terrain, old(self).diagonals, old(self).frontier_kind, old(self).g_w as int, old(self).h_w as int,
                old(self).start as int, old(self).goal as int, old(self).expanded as int, -1, -1),
            old(self).two ==> old(self).bwd.inv(dom, terrain, old(self).diagonals, old(self).frontier_kind, old(self).g_w as int,
                old(self).h_w as int, old(self).goal as int, old(self).start as int, old(self).expanded as int, -1, -1),
        ensures
            final(self).cells == old(self).cells,
            final(self).two == old(self).two,
            final(self).turn == old(self).turn,
            final(self).diagonals == old(self).diagonals,
            final(self).algo == old(self).algo,
            final(self).frontier_kind == old(self).frontier_kind,
            final(self).g_w == old(self).g_w,
            final(self).h_w == old(self).h_w,
            final(self).start == old(self).start,
            final(self).goal == old(self).goal,
            final(self).expanded == old(self).expanded,
            final(self).frontier == old(self).frontier,
            final(self).done == old(self).done,
            final(self).found == old(self).found,
            final(self).cost == old(self).cost,
            final(self).path == old(self).path,
            si == 0 ==> final(self).bwd == old(self).bwd,
            si == 1 ==> final(self).fwd == old(self).fwd,
            si == 0 ==> (r, final(self).fwd.state()) == pop_state(old(self).fwd.state(), old(self).frontier_kind),
            si == 1 ==> (r, final(self).bwd.state()) == pop_state(old(self).bwd.state(), old(self).frontier_kind),
            pop_result(old(self).fwd, final(self).fwd, r, dom, terrain, old(self).diagonals, old(self).frontier_kind,
                old(self).g_w as int, old(self).h_w as int, old(self).start as int, old(self).goal as int, old(self).expanded as int)
                || si == 1,
            pop_result(old(self).bwd, final(self).bwd, r, dom, terrain, old(self).diagonals, old(self).frontier_kind,
                old(self).g_w as int, old(self).h_w as int, old(self).goal as int, old(self).start as int, old(self).expanded as int)
                || si == 0,
    {
        let kind = self.frontier_kind;
        if si == 0 {
            self.fwd.pop_valid(
                kind,
                Ghost(dom),
                Ghost(terrain),
                Ghost(self.diagonals),
                Ghost(self.g_w as int),
                Ghost(self.h_w as int),
                Ghost(self.start as int),
                Ghost(self.goal as int),
                Ghost(self.expanded as int),
            )
        } else {
            self.bwd.pop_valid(
                kind,
                Ghost(dom),
                Ghost(terrain),
                Ghost(self.diagonals),
                Ghost(self.g_w as int),
                Ghost(self.h_w as int),
                Ghost(self.goal as int),
                Ghost(self.start as int),
                Ghost(self.expanded as int),
            )
        }
    }
}

/// What taking an entry off a search's frontier gives.
spec fn pop_result(
    s0: Search,
    s1: Search,
    r: Option<QEntry>,
    dom: Domain,
    terrain: Seq<u8>,
    diagonals: bool,
    kind: u8,
    gw: int,
    hw: int,
    origin: int,
    target: int,
    time: int,
) -> bool {
    &&& s1.stat@ == s0.stat@
    &&& s1.g@ == s0.g@
    &&& s1.parent@ == s0.parent@
    &&& s1.rank@ == s0.rank@
    &&& s1.target == s0.target
    &&& r is None ==> s1.inv(dom, terrain, diagonals, kind, gw, hw, origin, target, time, -1, -1) && open_set(s1.stat@).len() == 0
    &&& r matches Some(e) ==> {
        &&& e.idx < dom.size()
        &&& s0.stat@[e.idx as int] == S_OPEN
        &&& s1.inv(dom, terrain, diagonals, kind, gw, hw, origin, target, time, e.idx as int, -1)
        &&& kind != FR_LIFO ==> e.parent == s0.parent@[e.idx as int] && e.g == s0.g@[e.idx as int]
        &&& kind == FR_PQ ==> forall|v: int|
            0 <= v < dom.size() && v != e.idx && #[trigger] s0.stat@[v] == S_OPEN ==> gw * s0.g@[e.idx as int] + hw * heuristic(
                dom,
                diagonals,
                e.idx as int,
                target,
            ) <= gw * s0.g@[v] + hw * heuristic(dom, diagonals, v, target)
        &&& kind == FR_LIFO ==> e.g <= time * MAX_STEP && ((e.idx == origin && e.parent == NO_PARENT && e.g == 0) || (e.parent
            < dom.size() && s0.stat@[e.parent as int] == S_CLOSED && edge(dom, terrain, e.parent as int, e.idx as int, diagonals)))
    }
}

} // verus!

verus! {

/// Mark every cell of `path` as on the path.
fn mark_path(
    cells: &mut Vec<u8>,
    path: &Vec<u32>,
    Ghost(dom): Ghost<Domain>,
    Ghost(terrain): Ghost<Seq<u8>>,
    Ghost(start): Ghost<int>,
    Ghost(goal): Ghost<int>,
)
    requires
        dom.wf(),
        old(cells)@.len() == dom.size(),
        forall|k: int| 0 <= k < path@.len() ==> #[trigger] path@[k] < dom.size(),
        on_search_cells(dom, terrain, path@, start, goal),
        cells_ok(dom, terrain, old(cells)@, start, goal),
        0 <= start < terrain.len() && terrain[start] != T_VOID,
        0 <= goal < terrain.len() && terrain[goal] != T_VOID,
    ensures
        cells_ok(dom, terrain, final(cells)@, start, goal),
        forall|i: int| 0 <= i < dom.size() ==> #[trigger] final(cells)@[i] == if path@.contains(i as u32) {
            PATH
        } else {
            old(cells)@[i]
        },
{
    let n = path.len();
    let mut i: usize = 0;
    while i < n
        invariant
            dom.wf(),
            n == path@.len(),
            i <= n,
            cells@.len() == dom.size(),
            forall|k: int| 0 <= k < path@.len() ==> #[trigger] path@[k] < dom.size(),
            on_search_cells(dom, terrain, path@, start, goal),
            cells_ok(dom, terrain, cells@, start, goal),
            0 <= start < terrain.len() && terrain[start] != T_VOID,
            0 <= goal < terrain.len() && terrain[goal] != T_VOID,
            forall|j: int| 0 <= j < dom.size() ==> #[trigger] cells@[j] == if path@.subrange(0, i as int).contains(j as u32) {
                PATH
            } else {
                old(cells)@[j]
            },
        decreases n - i,
    {
        let ghost before = cells@;
        let c = path[i];
        proof {
            assert(path@[i as int] == c);
        }
        cells.set(c as usize, PATH);
        proof {
            let sa = path@.subrange(0, i as int);
            let sb = path@.subrange(0, i + 1);
            assert(sb =~= sa.push(c));
            assert forall|j: int| 0 <= j < dom.size() implies #[trigger] cells@[j] == if sb.contains(j as u32) {
                PATH
            } else {
                old(cells)@[j]
            } by {
                if sa.contains(j as u32) {
                    let k = choose|k: int| 0 <= k < sa.len() && #[trigger] sa[k] == j as u32;
                    assert(sb[k] == j as u32);
                }
                if sb.contains(j as u32) && j != c {
                    let k = choose|k: int| 0 <= k < sb.len() && #[trigger] sb[k] == j as u32;
                    assert(sa[k] == j as u32);
                }
                if j == c {
                    assert(sb[i as int] == c);
                }
            }
            assert forall|j: int| 0 <= j < cells@.len() implies {
                let x = #[trigger] cells@[j];
                &&& x == FREE || x == OBST || x == OPEN || x == CLOSED || x == PATH
                &&& x == OBST ==> terrain[j] == T_OBST && j != start && j != goal
                &&& (x == OPEN || x == CLOSED || x == PATH) ==> passable(dom, terrain, j) || ((j == start || j == goal)
                    && terrain[j] != T_VOID)
            } by {
                if j == c {
                    assert(passable(dom, terrain, path@[i as int] as int) || path@[i as int] == start || path@[i as int] == goal);
                } else {
                    assert(before[j] == cells@[j]);
                }
            }
        }
        i += 1;
    }
    proof {
        assert(path@.subrange(0, n as int) =~= path@);
    }
}

impl Solver {
    /// The setup a step leaves alone.
    pub closed spec fn same_setup(&self, other: &Solver) -> bool {
        &&& self.algo == other.algo
        &&& self.start == other.start
        &&& self.goal == other.goal
        &&& self.diagonals == other.diagonals
        &&& self.two == other.two
        &&& self.frontier_kind == other.frontier_kind
        &&& self.g_w == other.g_w
        &&& self.h_w == other.h_w
    }

    /// Walk the forward search's parents from `to` back to the start.
    fn walk_fwd(&self, to: u32, Ghost(dom): Ghost<Domain>, Ghost(terrain): Ghost<Seq<u8>>, Ghost(pending): Ghost<int>) -> (p: Vec<u32>)
        requires
            dom.wf(),
            terrain.len() == dom.size(),
            self.start < dom.size(),
            terrain[self.start as int] != T_VOID,
            self.fwd.inv(dom, terrain, self.diagonals, self.frontier_kind, self.g_w as int, self.h_w as int, self.start as int,
                self.goal as int, self.expanded as int, -1, pending),
            to < dom.size(),
            self.fwd.stat@[to as int] == S_CLOSED,
        ensures
            p@.len() >= 1,
            p@[0] == self.start,
            p@.last() == to,
            forall|i: int| 0 <= i < p@.len() ==> #[trigger] open_cell(endpoints_freed(terrain, self.start as int, self.goal as int), p@[i] as int),
            forall|i: int| 0 < i < p@.len() ==> #[trigger] legal_step(dom, p@[i - 1] as int, p@[i] as int, self.diagonals),
            on_search_cells(dom, terrain, p@, self.start as int, self.goal as int),
            is_walk(dom, terrain, p@, self.diagonals),
            forall|i: int| 0 <= i < p@.len() ==> #[trigger] self.fwd.members(self.start as int).contains(p@[i] as int),
            forall|i: int| 0 < i < p@.len() ==> self.fwd.parent@[#[trigger] p@[i] as int] == p@[i - 1],
            p@ == climb(self.fwd.parent@, to, dom.size()).reverse(),
    {
        let ghost o = self.start as int;
        proof {
            lemma_inv_forest(self.fwd, dom, terrain, self.diagonals, self.frontier_kind, self.g_w as int, self.h_w as int, o,
                self.goal as int, self.expanded as int, -1, pending);
        }
        let p = crate::route::trace_back(
            &self.fwd.parent,
            to,
            Ghost(dom),
            Ghost(terrain),
            Ghost(self.diagonals),
            Ghost(o),
            Ghost(self.fwd.rank@),
            Ghost(self.fwd.members(o)),
        );
        proof {
            lemma_walk_route(dom, terrain, p@, self.diagonals, self.start, self.goal);
            let par = self.fwd.parent@;
            let q = p@.reverse();
            let m = self.fwd.members(o);
            assert forall|i: int| 0 <= i < q.len() implies #[trigger] q[i] < dom.size() by {
                assert(q[i] == p@[p@.len() - 1 - i]);
                assert(m.contains(p@[p@.len() - 1 - i] as int));
            }
            assert forall|i: int| 0 < i < q.len() implies #[trigger] q[i] == par[q[i - 1] as int] by {
                let k = p@.len() - i;
                assert(q[i - 1] == p@[k] && q[i] == p@[k - 1]);
                assert(par[p@[k] as int] == p@[k - 1]);
            }
            assert(q.last() == p@[0]);
            assert(climbs(par, q, dom.size()));
            lemma_climb_unique(par, q, dom.size());
            assert(q.reverse() =~= p@);
        }
        p
    }

    /// Record the found path: its cost, and its cells in the buffer.
    fn finish_path(&mut self, dom: &Domain, terrain: &[u8], path: Vec<u32>)
        requires
            dom.wf(),
            terrain@.len() == dom.size(),
            old(self).cells@.len() == dom.size(),
            cells_ok(*dom, terrain@, old(self).cells@, old(self).start as int, old(self).goal as int),
            old(self).start < dom.size() && terrain@[old(self).start as int] != T_VOID,
            old(self).goal < dom.size() && terrain@[old(self).goal as int] != T_VOID,
            is_route(*dom, endpoints_freed(terrain@, old(self).start as int, old(self).goal as int), path@, old(self).start,
                old(self).goal, old(self).diagonals),
            on_search_cells(*dom, terrain@, path@, old(self).start as int, old(self).goal as int),
        ensures
            final(self).found,
            final(self).done,
            final(self).path@ == path@,
            path_cost_spec(*dom, terrain@, path@) == Some(final(self).cost as int),
            cells_ok(*dom, terrain@, final(self).cells@, final(self).start as int, final(self).goal as int),
            final(self).same_setup(old(self)),
            final(self).expanded == old(self).expanded,
            final(self).turn == old(self).turn,
            final(self).frontier == old(self).frontier,
            final(self).fwd == old(self).fwd,
            final(self).bwd == old(self).bwd,
            final(self).cells@.len() == old(self).cells@.len(),
            forall|i: int| 0 <= i < dom.size() ==> #[trigger] final(self).cells@[i] == if path@.contains(i as u32) {
                PATH
            } else {
                old(self).cells@[i]
            },
    {
        let ghost fr = endpoints_freed(terrain@, self.start as int, self.goal as int);
        proof {
            assert forall|i: int| 0 < i < path@.len() implies #[trigger] legal_step(*dom, path@[i - 1] as int, path@[i] as int, self.diagonals) by {}
            lemma_legal_cost(*dom, terrain@, path@, self.diagonals);
            assert forall|i: int| 0 <= i < path@.len() implies #[trigger] path@[i] < dom.size() by {
                assert(open_cell(fr, path@[i] as int));
            }
        }
        let c = crate::route::path_cost(dom, terrain, &path);
        self.cost = c.unwrap();
        mark_path(&mut self.cells, &path, Ghost(*dom), Ghost(terrain@), Ghost(self.start as int), Ghost(self.goal as int));
        self.path = path;
        self.done = true;
        self.found = true;
    }
}

} // verus!

verus! {

/// The solver mid-step, just after closing cell `u` in search `si` as
/// expansion number `expanded`: the moves out of `u` are still to be
/// offered, and the meeting or goal test is still to be made.
spec fn mid_step(sv: Solver, dom: Domain, terrain: Seq<u8>, si: int, u: int) -> bool {
    let size = dom.size();
    let t = sv.expanded as int;
    let kind = sv.frontier_kind;
    let (gw, hw) = (sv.g_w as int, sv.h_w as int);
    let (start, goal) = (sv.start as int, sv.goal as int);
    let closing = if si == 0 { sv.fwd } else { sv.bwd };
    &&& dom.wf()
    &&& terrain.len() == size
    &&& start < size
    &&& goal < size
    &&& sv.algo <= ALGO_DFS
    &&& kind == frontier_kind_of(sv.algo)
    &&& (gw, hw) == weights_of(sv.algo)
    &&& sv.two == (sv.algo == ALGO_BISWARM)
    &&& sv.turn < if sv.two { 2usize } else { 1usize }
    &&& cells_ok(dom, terrain, sv.cells@, start, goal)
    &&& forall|i: int| 0 <= i < size ==> #[trigger] sv.cells@[i] == shade(sv.fwd.stat@, sv.bwd.stat@, sv.two, terrain, start, goal, i)
    &&& !sv.found
    &&& !sv.done
    &&& sv.path@.len() == 0
    &&& !Solver::trivial(terrain, sv.start, sv.goal)
    &&& 1 <= t <= 2 * size
    &&& (si == 0 || (si == 1 && sv.two))
    &&& 0 <= u < size
    &&& closing.stat@[u] == S_CLOSED
    &&& closing.g@[u] + MAX_STEP <= t * MAX_STEP
    &&& if si == 0 {
        &&& sv.fwd.inv(dom, terrain, sv.diagonals, kind, gw, hw, start, goal, t, -1, u)
        &&& sv.two ==> sv.bwd.inv(dom, terrain, sv.diagonals, kind, gw, hw, goal, start, t, -1, -1)
    } else {
        &&& sv.fwd.inv(dom, terrain, sv.diagonals, kind, gw, hw, start, goal, t, -1, -1)
        &&& sv.bwd.inv(dom, terrain, sv.diagonals, kind, gw, hw, goal, start, t, -1, u)
    }
    &&& t == closed_set(sv.fwd.stat@).len() + if sv.two {
        closed_set(sv.bwd.stat@).len() as int
    } else {
        0
    }
    &&& sv.frontier == open_set(sv.fwd.stat@).len() + if sv.two {
        open_set(sv.bwd.stat@).len() as int
    } else {
        0
    }
    &&& if sv.two {
        forall|v: int| #[trigger] closed_set(sv.fwd.stat@).contains(v) && closed_set(sv.bwd.stat@).contains(v) ==> v == u
    } else {
        closed_set(sv.fwd.stat@).contains(goal) ==> goal == u
    }
}

impl Solver {
    /// Close the entry `e` just taken from search `si`.
    #[verifier::rlimit(50)]
    fn close_entry(&mut self, dom: &Domain, terrain: &[u8], si: usize, e: QEntry, Ghost(s0): Ghost<Solver>)
        requires
            s0.inv(*dom, terrain@),
            !s0.done,
            si == 0 || (si == 1 && s0.two),
            s0.same_setup(old(self)),
            old(self).cells == s0.cells,
            old(self).turn == s0.turn,
            old(self).expanded == s0.expanded,
            old(self).frontier == s0.frontier,
            old(self).done == s0.done,
            old(self).found == s0.found,
            old(self).path == s0.path,
            si == 0 && s0.two ==> old(self).bwd.inv(*dom, terrain@, s0.diagonals, s0.frontier_kind, s0.g_w as int, s0.h_w as int,
                s0.goal as int, s0.start as int, s0.expanded as int, -1, -1) && old(self).bwd.stat@ == s0.bwd.stat@,
            si == 1 ==> old(self).fwd.inv(*dom, terrain@, s0.diagonals, s0.frontier_kind, s0.g_w as int, s0.h_w as int,
                s0.start as int, s0.goal as int, s0.expanded as int, -1, -1) && old(self).fwd.stat@ == s0.fwd.stat@,
            si == 0 ==> pop_result(s0.fwd, old(self).fwd, Some(e), *dom, terrain@, s0.diagonals, s0.frontier_kind, s0.g_w as int,
                s0.h_w as int, s0.start as int, s0.goal as int, s0.expanded as int),
            si == 1 ==> pop_result(s0.bwd, old(self).bwd, Some(e), *dom, terrain@, s0.diagonals, s0.frontier_kind, s0.g_w as int,
                s0.h_w as int, s0.goal as int, s0.start as int, s0.expanded as int),
        ensures
            mid_step(*final(self), *dom, terrain@, si as int, e.idx as int),
            final(self).same_setup(old(self)),
            final(self).expanded == s0.expanded + 1,
            final(self).state() == closed_step(old(self).state(), old(self).two, old(self).frontier_kind, si as int, e),
    {
        proof {
            reveal(Solver::searching_inv);
        }
        let ghost t = s0.expanded as int;
        let ghost size = dom.size();
        let ghost start = s0.start as int;
        let ghost goal = s0.goal as int;
        let ghost diag = s0.diagonals;
        let kind = self.frontier_kind;
        let ghost gw = self.g_w as int;
        let ghost hw = self.h_w as int;
        let two = self.two;
        let ui = e.idx as usize;
        proof {
            lemma_status_sets_finite(s0.fwd.stat@);
            lemma_status_sets_finite(s0.bwd.stat@);
            lemma_inv_shape(s0.fwd, *dom, terrain@, diag, kind, gw, hw, start, goal, t, -1, -1);
            if two {
                lemma_inv_shape(s0.bwd, *dom, terrain@, diag, kind, gw, hw, goal, start, t, -1, -1);
            }
            let u = e.idx as int;
            lemma_inv_unseen(s0.fwd, *dom, terrain@, diag, kind, gw, hw, start, goal, t, -1, -1, u);
            if two {
                lemma_inv_unseen(s0.bwd, *dom, terrain@, diag, kind, gw, hw, goal, start, t, -1, -1, u);
            }
        }
        proof {
            if kind == FR_PQ && gw == 2 && hw <= 2 {
                if si == 0 {
                    lemma_close_optimal(self.fwd, *dom, terrain@, diag, gw, hw, start, goal, t, e.idx as int);
                } else {
                    lemma_close_optimal(self.bwd, *dom, terrain@, diag, gw, hw, goal, start, t, e.idx as int);
                }
            }
            if kind == FR_FIFO {
                if si == 0 {
                    lemma_close_hops(self.fwd, *dom, terrain@, diag, gw, hw, start, goal, t, e.idx as int);
                } else {
                    lemma_close_hops(self.bwd, *dom, terrain@, diag, gw, hw, goal, start, t, e.idx as int);
                }
            }
        }
        if si == 0 {
            self.fwd.close(kind, e, Ghost(*dom), Ghost(terrain@), Ghost(diag), Ghost(gw), Ghost(hw), Ghost(start), Ghost(goal), Ghost(t));
        } else {
            self.bwd.close(kind, e, Ghost(*dom), Ghost(terrain@), Ghost(diag), Ghost(gw), Ghost(hw), Ghost(goal), Ghost(start), Ghost(t));
        }
        proof {
            let u = e.idx as int;
            if si == 0 {
                assert(open_set(s0.fwd.stat@).contains(u));
                assert(!closed_set(s0.fwd.stat@).contains(u));
                vstd::set::axiom_set_insert_len(closed_set(s0.fwd.stat@), u);
                vstd::set::axiom_set_remove_len(open_set(s0.fwd.stat@), u);
                if two {
                    lemma_inv_later(self.bwd, *dom, terrain@, diag, kind, gw, hw, goal, start, t);
                }
            } else {
                assert(self.fwd.stat@ == s0.fwd.stat@);
                assert(open_set(s0.bwd.stat@).contains(u));
                assert(!closed_set(s0.bwd.stat@).contains(u));
                vstd::set::axiom_set_insert_len(closed_set(s0.bwd.stat@), u);
                vstd::set::axiom_set_remove_len(open_set(s0.bwd.stat@), u);
                lemma_inv_later(self.fwd, *dom, terrain@, diag, kind, gw, hw, start, goal, t);
            }
            assert(u == start || u == goal || passable(*dom, terrain@, u));
            assert(e.g <= t * MAX_STEP);
        }
        self.cells.set(ui, CLOSED);
        self.frontier = self.frontier - 1;
        self.expanded = self.expanded + 1;
        self.turn = if two { 1 - si } else { 0 };
        proof {
            assert forall|j: int| 0 <= j < self.cells@.len() implies {
                let x = #[trigger] self.cells@[j];
                &&& x == FREE || x == OBST || x == OPEN || x == CLOSED || x == PATH
                &&& x == OBST ==> terrain@[j] == T_OBST && j != self.start && j != self.goal
                &&& (x == OPEN || x == CLOSED || x == PATH) ==> passable(*dom, terrain@, j) || ((j == self.start || j
                    == self.goal) && terrain@[j] != T_VOID)
            } by {
                if j != ui {
                    assert(self.cells@[j] == s0.cells@[j]);
                }
            }
            assert(mid_step(*self, *dom, terrain@, si as int, e.idx as int));
        }
    }

    /// Finish a step after closing `u`: stop on meeting the other search or
    /// reaching the goal, else offer the moves out of `u`.
    #[verifier::rlimit(50)]
    fn after_close(&mut self, dom: &Domain, terrain: &[u8], si: usize, u: u32)
        requires
            mid_step(*old(self), *dom, terrain@, si as int, u as int),
        ensures
            final(self).inv(*dom, terrain@),
            final(self).same_setup(old(self)),
            final(self).expanded == old(self).expanded,
            final(self).state() == after_step(old(self).state(), *dom, terrain@, old(self).start, old(self).goal, old(self).diagonals, old(self).algo, si as int, u),
    {
        let ghost s0 = *self;
        let ghost t = self.expanded as int;
        let ghost size = dom.size();
        let ghost start = self.start as int;
        let ghost goal = self.goal as int;
        let ghost diag = self.diagonals;
        let kind = self.frontier_kind;
        let gw = self.g_w;
        let hw = self.h_w;
        let two = self.two;
        let ui = u as usize;
        proof {
            lemma_inv_shape(s0.fwd, *dom, terrain@, diag, kind, gw as int, hw as int, start, goal, t, -1, if si == 0 { u as int } else { -1 });
            if two {
                lemma_inv_shape(s0.bwd, *dom, terrain@, diag, kind, gw as int, hw as int, goal, start, t, -1, if si == 1 { u as int } else { -1 });
            }
        }
        if two {
            let met = if si == 0 {
                self.bwd.stat[ui] == S_CLOSED
            } else {
                self.fwd.stat[ui] == S_CLOSED
            };
            if met {
                let mut path = self.walk_fwd(u, Ghost(*dom), Ghost(terrain@), Ghost(if si == 0 { u as int } else { -1 }));
                proof {
                    lemma_inv_forest(self.bwd, *dom, terrain@, diag, kind, gw as int, hw as int, goal, start, t, -1,
                        if si == 1 { u as int } else { -1 });
                    assert forall|i: int| 0 < i < path@.len() implies #[trigger] legal_step(*dom, path@[i - 1] as int, path@[i] as int, diag) by {
                        assert(legal_step(*dom, path@[i - 1] as int, path@[i] as int, self.diagonals));
                    }
                }
                extend_to_root(
                    &mut path,
                    &self.bwd.parent,
                    u,
                    Ghost(*dom),
                    Ghost(terrain@),
                    Ghost(diag),
                    Ghost(self.start),
                    Ghost(self.goal),
                    Ghost(self.bwd.rank@),
                    Ghost(self.bwd.members(goal)),
                );
                self.finish_path(dom, terrain, path);
                return;
            }
        } else if u == self.goal {
            let path = self.walk_fwd(u, Ghost(*dom), Ghost(terrain@), Ghost(u as int));
            proof {
                if kind == FR_PQ && gw == 2 && hw <= 2 {
                    lemma_chain_cost(self.fwd, *dom, terrain@, diag, gw as int, hw as int, start, goal, t, -1, u as int, path@,
                        path@.len() - 1);
                    assert(path@.subrange(0, path@.len() as int) =~= path@);
                    lemma_inv_optimal(self.fwd, *dom, terrain@, diag, gw as int, hw as int, start, goal, t, -1, u as int, goal);
                }
                if kind == FR_FIFO {
                    lemma_chain_hops(self.fwd, *dom, terrain@, diag, gw as int, hw as int, start, goal, t, -1, u as int, path@,
                        path@.len() - 1);
                    lemma_inv_hops(self.fwd, *dom, terrain@, diag, gw as int, hw as int, start, goal, t, -1, u as int, goal);
                }
            }
            self.finish_path(dom, terrain, path);
            return;
        }
        let opened = if si == 0 {
            self.fwd.expand(&mut self.cells, dom, terrain, self.diagonals, kind, gw, hw, u, Ghost(start), Ghost(t))
        } else {
            self.bwd.expand(&mut self.cells, dom, terrain, self.diagonals, kind, gw, hw, u, Ghost(goal), Ghost(t))
        };
        proof {
            lemma_status_sets_finite(self.fwd.stat@);
            lemma_status_sets_finite(self.bwd.stat@);
            lemma_inv_shape(self.fwd, *dom, terrain@, diag, kind, gw as int, hw as int, start, goal, t, -1, -1);
            if two {
                lemma_inv_shape(self.bwd, *dom, terrain@, diag, kind, gw as int, hw as int, goal, start, t, -1, -1);
            }
            assert(open_set(self.fwd.stat@).len() + (if two { open_set(self.bwd.stat@).len() as int } else { 0 }) <= 2 * size);
        }
        self.frontier = self.frontier + opened;
        proof {
            reveal(Solver::searching_inv);
            assert forall|j: int| 0 <= j < self.cells@.len() implies {
                let x = #[trigger] self.cells@[j];
                &&& x == FREE || x == OBST || x == OPEN || x == CLOSED || x == PATH
                &&& x == OBST ==> terrain@[j] == T_OBST && j != self.start && j != self.goal
                &&& (x == OPEN || x == CLOSED || x == PATH) ==> passable(*dom, terrain@, j) || ((j == self.start || j
                    == self.goal) && terrain@[j] != T_VOID)
            } by {
                if si == 0 {
                    lemma_inv_unseen(self.fwd, *dom, terrain@, diag, kind, gw as int, hw as int, start, goal, t, -1, -1, j);
                } else {
                    lemma_inv_unseen(self.bwd, *dom, terrain@, diag, kind, gw as int, hw as int, goal, start, t, -1, -1, j);
                }
            }
            if two {
                assert(closed_set(self.fwd.stat@).disjoint(closed_set(self.bwd.stat@))) by {
                    assert forall|v: int| !(#[trigger] closed_set(self.fwd.stat@).contains(v) && closed_set(self.bwd.stat@).contains(v)) by {
                        if closed_set(self.fwd.stat@).contains(v) && closed_set(self.bwd.stat@).contains(v) {
                            assert(closed_set(s0.fwd.stat@).contains(v) && closed_set(s0.bwd.stat@).contains(v));
                        }
                    }
                }
            }
            assert(self.searching_inv(*dom, terrain@));
            assert forall|i: int| 0 <= i < size implies #[trigger] self.cells@[i] == shade(
                self.fwd.stat@,
                self.bwd.stat@,
                two,
                terrain@,
                start,
                goal,
                i,
            ) by {
                assert(s0.cells@[i] == shade(s0.fwd.stat@, s0.bwd.stat@, two, terrain@, start, goal, i));
                if si == 0 {
                    lemma_inv_unseen(self.fwd, *dom, terrain@, diag, kind, gw as int, hw as int, start, goal, t, -1, -1, i);
                } else {
                    lemma_inv_unseen(self.bwd, *dom, terrain@, diag, kind, gw as int, hw as int, goal, start, t, -1, -1, i);
                }
            }
        }
    }

    /// Close the next cell of the search whose turn it is, or of the other
    /// one when that frontier is empty; stop on reaching the goal or the
    /// other search, else offer the moves out of the cell.
    fn step_once(&mut self, dom: &Domain, terrain: &[u8])
        requires
            old(self).inv(*dom, terrain@),
            !old(self).done,
        ensures
            final(self).inv(*dom, terrain@),
            final(self).same_setup(old(self)),
            old(self).expanded <= final(self).expanded <= old(self).expanded + 1,
            !final(self).done ==> final(self).expanded == old(self).expanded + 1,
            final(self).state() == step_state(old(self).state(), *dom, terrain@, old(self).start, old(self).goal, old(self).diagonals, old(self).algo),
    {
        proof {
            reveal(Solver::searching_inv);
        }
        let ghost s0 = *self;
        let ghost t = self.expanded as int;
        let ghost start = self.start as int;
        let ghost goal = self.goal as int;
        let ghost diag = self.diagonals;
        let ghost kind = self.frontier_kind;
        let ghost gw = self.g_w as int;
        let ghost hw = self.h_w as int;
        let two = self.two;
        let first = self.turn;
        let mut si: usize = first;
        let mut entry = self.pop_from(si, Ghost(*dom), Ghost(terrain@));
        if entry.is_none() && two {
            si = 1 - first;
            entry = self.pop_from(si, Ghost(*dom), Ghost(terrain@));
        }
        match entry {
            None => {
                self.done = true;
                proof {
                    assert(self.fwd.inv(*dom, terrain@, diag, kind, gw, hw, start, goal, t, -1, -1));
                    assert(open_set(self.fwd.stat@).len() == 0);
                    if two {
                        assert(self.bwd.inv(*dom, terrain@, diag, kind, gw, hw, goal, start, t, -1, -1));
                        assert(open_set(self.bwd.stat@).len() == 0);
                    }
                    assert(self.searching_inv(*dom, terrain@));
                }
            },
            Some(e) => {
                self.close_entry(dom, terrain, si, e, Ghost(s0));
                self.after_close(dom, terrain, si, e.idx);
            },
        }
    }
}

} // verus!

verus! {

impl Solver {
    /// While the search runs, each expansion closes a cell of one of at most
    /// two searches.
    proof fn lemma_expanded_bound(&self, dom: Domain, terrain: Seq<u8>)
        requires
            self.inv(dom, terrain),
            !self.done,
        ensures
            self.expanded <= 2 * dom.size(),
    {
        reveal(Solver::searching_inv);
        let t = self.expanded as int;
        lemma_inv_shape(self.fwd, dom, terrain, self.diagonals, self.frontier_kind, self.g_w as int, self.h_w as int,
            self.start as int, self.goal as int, t, -1, -1);
        lemma_status_sets_finite(self.fwd.stat@);
        if self.two {
            lemma_inv_shape(self.bwd, dom, terrain, self.diagonals, self.frontier_kind, self.g_w as int, self.h_w as int,
                self.goal as int, self.start as int, t, -1, -1);
            lemma_status_sets_finite(self.bwd.stat@);
        }
    }

    /// Advance by at most `steps` node expansions (closes), searching the
    /// terrain with walls under the endpoints lifted.
    pub fn step_many(&mut self, dom: &Domain, terrain: &[u8], steps: u32)
        requires
            old(self).inv(*dom, endpoints_freed(terrain@, old(self).start_spec() as int, old(self).goal_spec() as int)),
        ensures
            final(self).inv(*dom, endpoints_freed(terrain@, old(self).start_spec() as int, old(self).goal_spec() as int)),
            final(self).same_setup(old(self)),
            final(self).start_spec() == old(self).start_spec(),
            final(self).goal_spec() == old(self).goal_spec(),
            final(self).diagonals_spec() == old(self).diagonals_spec(),
            final(self).algo_spec() == old(self).algo_spec(),
            old(self).done_spec() ==> *final(self) == *old(self),
            old(self).expanded_spec() <= final(self).expanded_spec() <= old(self).expanded_spec() + steps,
            !final(self).done_spec() ==> final(self).expanded_spec() == old(self).expanded_spec() + steps,
            final(self).state() == steps_state(
                old(self).state(),
                *dom,
                endpoints_freed(terrain@, old(self).start_spec() as int, old(self).goal_spec() as int),
                old(self).start_spec(),
                old(self).goal_spec(),
                old(self).diagonals_spec(),
                old(self).algo_spec(),
                steps as nat,
            ),
    {
        let ft = freed_copy(terrain, self.start, self.goal);
        self.step_many_over(dom, &ft, steps);
    }

    /// Advance by at most `steps` node expansions over terrain whose
    /// endpoints are already free.
    fn step_many_over(&mut self, dom: &Domain, terrain: &[u8], steps: u32)
        requires
            old(self).inv(*dom, terrain@),
        ensures
            final(self).inv(*dom, terrain@),
            final(self).same_setup(old(self)),
            final(self).start_spec() == old(self).start_spec(),
            final(self).goal_spec() == old(self).goal_spec(),
            final(self).diagonals_spec() == old(self).diagonals_spec(),
            final(self).algo_spec() == old(self).algo_spec(),
            old(self).done_spec() ==> *final(self) == *old(self),
            old(self).expanded_spec() <= final(self).expanded_spec() <= old(self).expanded_spec() + steps,
            !final(self).done_spec() ==> final(self).expanded_spec() == old(self).expanded_spec() + steps,
            final(self).state() == steps_state(old(self).state(), *dom, terrain@, old(self).start, old(self).goal, old(self).diagonals, old(self).algo, steps as nat),
    {
        let mut i: u32 = 0;
        while i < steps && !self.done
            invariant
                self.inv(*dom, terrain@),
                self.same_setup(old(self)),
                old(self).done ==> *self == *old(self),
                i <= steps,
                old(self).expanded <= self.expanded <= old(self).expanded + i,
                !self.done ==> self.expanded == old(self).expanded + i,
                self.state() == steps_state(old(self).state(), *dom, terrain@, old(self).start, old(self).goal, old(self).diagonals, old(self).algo, i as nat),
            decreases steps - i,
        {
            self.step_once(dom, terrain);
            i += 1;
        }
        proof {
            if i < steps {
                lemma_steps_settle(old(self).state(), *dom, terrain@, old(self).start, old(self).goal, old(self).diagonals, old(self).algo, i as nat, steps as nat);
            }
        }
    }

    /// Run to completion, searching the terrain with walls under the
    /// endpoints lifted: as many steps as the budget allows, which is more
    /// than any search takes.
    pub fn run(&mut self, dom: &Domain, terrain: &[u8])
        requires
            old(self).inv(*dom, endpoints_freed(terrain@, old(self).start_spec() as int, old(self).goal_spec() as int)),
        ensures
            final(self).inv(*dom, endpoints_freed(terrain@, old(self).start_spec() as int, old(self).goal_spec() as int)),
            final(self).same_setup(old(self)),
            final(self).start_spec() == old(self).start_spec(),
            final(self).goal_spec() == old(self).goal_spec(),
            final(self).diagonals_spec() == old(self).diagonals_spec(),
            final(self).algo_spec() == old(self).algo_spec(),
            final(self).done_spec(),
            old(self).done_spec() ==> *final(self) == *old(self),
            final(self).state() == steps_state(
                old(self).state(),
                *dom,
                endpoints_freed(terrain@, old(self).start_spec() as int, old(self).goal_spec() as int),
                old(self).start_spec(),
                old(self).goal_spec(),
                old(self).diagonals_spec(),
                old(self).algo_spec(),
                run_budget(*dom),
            ),
    {
        let ft = freed_copy(terrain, self.start, self.goal);
        self.run_over(dom, &ft);
    }

    /// Run to completion over terrain whose endpoints are already free:
    /// every cell closes at most once per direction, so twice the cell count
    /// bounds the expansions.
    fn run_over(&mut self, dom: &Domain, terrain: &[u8])
        requires
            old(self).inv(*dom, terrain@),
        ensures
            final(self).inv(*dom, terrain@),
            final(self).same_setup(old(self)),
            final(self).start_spec() == old(self).start_spec(),
            final(self).goal_spec() == old(self).goal_spec(),
            final(self).diagonals_spec() == old(self).diagonals_spec(),
            final(self).algo_spec() == old(self).algo_spec(),
            final(self).done_spec(),
            old(self).done_spec() ==> *final(self) == *old(self),
            final(self).state() == steps_state(old(self).state(), *dom, terrain@, old(self).start, old(self).goal, old(self).diagonals, old(self).algo, run_budget(*dom)),
    {
        proof {
            if !self.done {
                self.lemma_expanded_bound(*dom, terrain@);
            }
            reveal(Solver::searching_inv);
        }
        let total = dom.total();
        proof {
            assert(total <= 0x7fff_ffff);
        }
        let t32 = total as u32;
        assert(t32 == total);
        let cap = (t32 * 2).saturating_add(8);
        self.step_many_over(dom, terrain, cap);
        proof {
            if !self.done {
                self.lemma_expanded_bound(*dom, terrain@);
            }
        }
    }

    pub fn cells(&self) -> (r: &[u8])
        ensures
            r@ == self.cells_spec(),
    {
        self.cells.as_slice()
    }

    pub fn path(&self) -> (r: &[u32])
        ensures
            r@ == self.path_spec(),
    {
        self.path.as_slice()
    }

    pub fn expanded(&self) -> (r: u32)
        ensures
            r == self.expanded_spec(),
    {
        self.expanded
    }

    pub fn frontier(&self) -> (r: u32)
        ensures
            r == self.frontier_spec(),
    {
        self.frontier
    }

    pub fn is_done(&self) -> (r: bool)
        ensures
            r == self.done_spec(),
    {
        self.done
    }

    pub fn found(&self) -> (r: bool)
        ensures
            r == self.found_spec(),
    {
        self.found
    }

    /// The weighted cost of the found path, in units of `COST_ONE`; `None`
    /// while no path is found.
    pub fn cost(&self) -> (r: Option<u128>)
        ensures
            0 <= self.cost_spec() <= u128::MAX,
            r == if self.found_spec() {
                Some(self.cost_spec() as u128)
            } else {
                None::<u128>
            },
    {
        if self.found {
            Some(self.cost)
        } else {
            None
        }
    }

    pub fn algo(&self) -> (r: u8)
        ensures
            r == self.algo_spec(),
    {
        self.algo
    }

    pub fn start(&self) -> (r: u32)
        ensures
            r == self.start_spec(),
    {
        self.start
    }

    pub fn goal(&self) -> (r: u32)
        ensures
            r == self.goal_spec(),
    {
        self.goal
    }

    pub fn diagonals(&self) -> (r: bool)
        ensures
            r == self.diagonals_spec(),
    {
        self.diagonals
    }
}

} // verus!

verus! {

/// With its frontier exhausted, a search has closed every cell a walk from
/// its origin reaches.
proof fn lemma_walk_closed(
    s: Search,
    dom: Domain,
    terrain: Seq<u8>,
    diagonals: bool,
    kind: u8,
    gw: int,
    hw: int,
    origin: int,
    target: int,
    time: int,
    p: Seq<u32>,
    k: int,
)
    requires
        s.inv(dom, terrain, diagonals, kind, gw, hw, origin, target, time, -1, -1),
        open_set(s.stat@).len() == 0,
        is_walk(dom, terrain, p, diagonals),
        p[0] == origin,
        0 <= k < p.len(),
    ensures
        0 <= p[k] < dom.size(),
        s.stat@[p[k] as int] == S_CLOSED,
    decreases k,
{
    reveal(Search::inv);
    lemma_status_sets_finite(s.stat@);
    if k == 0 {
        if s.stat@[origin] == S_OPEN {
            vstd::set::axiom_set_contains_len(open_set(s.stat@), origin);
        }
    } else {
        lemma_walk_closed(s, dom, terrain, diagonals, kind, gw, hw, origin, target, time, p, k - 1);
        assert(edge(dom, terrain, p[k - 1] as int, p[k] as int, diagonals));
        let v = p[k] as int;
        if s.stat@[v] == S_OPEN {
            vstd::set::axiom_set_contains_len(open_set(s.stat@), v);
        }
    }
}

impl Solver {
    /// A found path is a legal route from the start to the goal over the
    /// terrain, counting a wall under an endpoint as ground; the reported
    /// cost is its weighted cost.
    pub proof fn lemma_found_route(&self, dom: Domain, terrain: Seq<u8>)
        requires
            self.inv(dom, terrain),
            self.found_spec(),
        ensures
            self.done_spec(),
            is_route(
                dom,
                endpoints_freed(terrain, self.start_spec() as int, self.goal_spec() as int),
                self.path_spec(),
                self.start_spec(),
                self.goal_spec(),
                self.diagonals_spec(),
            ),
            path_cost_spec(dom, terrain, self.path_spec()) == Some(self.cost_spec()),
            on_search_cells(dom, terrain, self.path_spec(), self.start_spec() as int, self.goal_spec() as int),
    {
    }

    /// Cell `i` has been closed: by the search, or by either search of a
    /// bidirectional one.
    pub closed spec fn closed_cell(&self, i: int) -> bool {
        self.fwd.stat@[i] == S_CLOSED || (self.two && self.bwd.stat@[i] == S_CLOSED)
    }

    /// Cell `i` waits on a frontier and no search has closed it.
    pub closed spec fn frontier_cell(&self, i: int) -> bool {
        !self.closed_cell(i) && (self.fwd.stat@[i] == S_OPEN || (self.two && self.bwd.stat@[i] == S_OPEN))
    }

    /// What the state buffer shows. Until a path is found: CLOSED exactly on
    /// the closed cells, OPEN exactly on the rest of the frontier, OBST
    /// exactly on the walls off the endpoints that neither holds, FREE on
    /// the rest, and while the search runs there are exactly as many closed
    /// cells as expansions. Once a path is found: PATH exactly on its cells.
    pub proof fn lemma_buffer_meaning(&self, dom: Domain, terrain: Seq<u8>)
        requires
            self.inv(dom, terrain),
        ensures
            self.cells_spec().len() == dom.size(),
            !self.found_spec() ==> forall|i: int|
                0 <= i < dom.size() ==> {
                    &&& (#[trigger] self.cells_spec()[i] == CLOSED <==> self.closed_cell(i))
                    &&& (self.cells_spec()[i] == OPEN <==> self.frontier_cell(i))
                    &&& (self.cells_spec()[i] == OBST <==> !self.closed_cell(i) && !self.frontier_cell(i) && terrain[i]
                        == T_OBST && i != self.start_spec() && i != self.goal_spec())
                    &&& (self.cells_spec()[i] == FREE <==> !self.closed_cell(i) && !self.frontier_cell(i) && !(terrain[i]
                        == T_OBST && i != self.start_spec() && i != self.goal_spec()))
                },
            self.found_spec() ==> forall|i: int|
                0 <= i < dom.size() ==> (#[trigger] self.cells_spec()[i] == PATH <==> self.path_spec().contains(i as u32)),
            !self.found_spec() && !Self::trivial(terrain, self.start_spec(), self.goal_spec()) ==> Set::new(
                |i: int| 0 <= i < dom.size() && self.closed_cell(i),
            ).len() == self.expanded_spec(),
    {
        if !self.found && !Self::trivial(terrain, self.start, self.goal) {
            reveal(Solver::searching_inv);
            let size = dom.size();
            lemma_inv_shape(self.fwd, dom, terrain, self.diagonals, self.frontier_kind, self.g_w as int, self.h_w as int,
                self.start as int, self.goal as int, self.expanded as int, -1, -1);
            lemma_status_sets_finite(self.fwd.stat@);
            let cs = Set::new(|i: int| 0 <= i < size && self.closed_cell(i));
            if self.two {
                lemma_inv_shape(self.bwd, dom, terrain, self.diagonals, self.frontier_kind, self.g_w as int, self.h_w as int,
                    self.goal as int, self.start as int, self.expanded as int, -1, -1);
                lemma_status_sets_finite(self.bwd.stat@);
                assert(cs =~= closed_set(self.fwd.stat@) + closed_set(self.bwd.stat@));
                vstd::set_lib::lemma_set_disjoint_lens(closed_set(self.fwd.stat@), closed_set(self.bwd.stat@));
            } else {
                assert(cs =~= closed_set(self.fwd.stat@));
            }
        }
    }

    /// Until a path is found the path is empty.
    pub proof fn lemma_no_path_empty(&self, dom: Domain, terrain: Seq<u8>)
        requires
            self.inv(dom, terrain),
            !self.found_spec(),
        ensures
            self.path_spec().len() == 0,
    {
    }

    /// With both endpoints on open ground, a found path is a walk from the
    /// start to the goal whose weighted cost is the reported cost.
    proof fn lemma_found_walk(&self, dom: Domain, terrain: Seq<u8>)
        requires
            dom.wf(),
            self.inv(dom, terrain),
            self.found_spec(),
            passable(dom, terrain, self.start_spec() as int),
            passable(dom, terrain, self.goal_spec() as int),
        ensures
            is_walk(dom, terrain, self.path_spec(), self.diagonals_spec()),
            self.path_spec()[0] == self.start_spec(),
            self.path_spec().last() == self.goal_spec(),
            walk_cost(dom, terrain, self.path_spec()) == self.cost_spec(),
    {
        let p = self.path@;
        let (start, goal, diag) = (self.start as int, self.goal as int, self.diagonals);
        assert forall|i: int| 0 <= i < p.len() implies #[trigger] passable(dom, terrain, p[i] as int) by {
            assert(passable(dom, terrain, p[i] as int) || p[i] == start || p[i] == goal);
        }
        assert forall|i: int| 0 < i < p.len() implies #[trigger] edge(dom, terrain, p[i - 1] as int, p[i] as int, diag) by {
            assert(passable(dom, terrain, p[i - 1] as int));
            assert(passable(dom, terrain, p[i] as int));
            assert(legal_step(dom, p[i - 1] as int, p[i] as int, diag));
        }
    }

    /// Least-cost searches agree: two searches, each A* or Dijkstra, run to
    /// the end over the same world between the same open endpoints, both
    /// find a path or neither does, and the paths found cost the same. So
    /// replaying such a search, or switching between the two, never changes
    /// the outcome.
    pub proof fn lemma_least_cost_runs_agree(a: &Solver, d: &Solver, dom: Domain, terrain: Seq<u8>)
        requires
            dom.wf(),
            a.inv(dom, terrain),
            d.inv(dom, terrain),
            a.algo_spec() == ALGO_ASTAR || a.algo_spec() == ALGO_DIJKSTRA,
            d.algo_spec() == ALGO_ASTAR || d.algo_spec() == ALGO_DIJKSTRA,
            a.start_spec() == d.start_spec(),
            a.goal_spec() == d.goal_spec(),
            a.diagonals_spec() == d.diagonals_spec(),
            a.done_spec(),
            d.done_spec(),
            passable(dom, terrain, a.start_spec() as int),
            passable(dom, terrain, a.goal_spec() as int),
        ensures
            a.found_spec() == d.found_spec(),
            a.found_spec() ==> a.cost_spec() == d.cost_spec(),
    {
        if a.found_spec() {
            a.lemma_found_walk(dom, terrain);
            assert(is_walk(dom, terrain, a.path@, a.diagonals));
            if !d.found_spec() {
                d.lemma_no_path_unreachable(dom, terrain);
            } else {
                d.lemma_found_walk(dom, terrain);
                assert(is_walk(dom, terrain, d.path@, d.diagonals));
                a.lemma_optimal(dom, terrain);
                d.lemma_optimal(dom, terrain);
            }
        } else if d.found_spec() {
            d.lemma_found_walk(dom, terrain);
            assert(is_walk(dom, terrain, d.path@, d.diagonals));
            a.lemma_no_path_unreachable(dom, terrain);
        }
    }

    /// Breadth-first searches agree on the number of moves: two of them, run
    /// to the end over the same world between the same open endpoints, both
    /// find a path or neither does, and the paths found are equally long.
    pub proof fn lemma_fewest_hop_runs_agree(a: &Solver, b: &Solver, dom: Domain, terrain: Seq<u8>)
        requires
            dom.wf(),
            a.inv(dom, terrain),
            b.inv(dom, terrain),
            a.algo_spec() == ALGO_BFS,
            b.algo_spec() == ALGO_BFS,
            a.start_spec() == b.start_spec(),
            a.goal_spec() == b.goal_spec(),
            a.diagonals_spec() == b.diagonals_spec(),
            a.done_spec(),
            b.done_spec(),
            passable(dom, terrain, a.start_spec() as int),
            passable(dom, terrain, a.goal_spec() as int),
        ensures
            a.found_spec() == b.found_spec(),
            a.found_spec() ==> a.path_spec().len() == b.path_spec().len(),
    {
        if a.found_spec() {
            a.lemma_found_walk(dom, terrain);
            assert(is_walk(dom, terrain, a.path@, a.diagonals));
            if !b.found_spec() {
                b.lemma_no_path_unreachable(dom, terrain);
            } else {
                b.lemma_found_walk(dom, terrain);
                assert(is_walk(dom, terrain, b.path@, b.diagonals));
                a.lemma_fewest_hops(dom, terrain);
                b.lemma_fewest_hops(dom, terrain);
            }
        } else if b.found_spec() {
            b.lemma_found_walk(dom, terrain);
            assert(is_walk(dom, terrain, b.path@, b.diagonals));
            a.lemma_no_path_unreachable(dom, terrain);
        }
    }

    /// A search that ends without a path from a start that is not void
    /// leaves the goal unreachable: no walk leads there.
    pub proof fn lemma_no_path_unreachable(&self, dom: Domain, terrain: Seq<u8>)
        requires
            self.inv(dom, terrain),
            self.done_spec(),
            !self.found_spec(),
            terrain[self.start_spec() as int] != T_VOID,
        ensures
            !crate::route::reachable(dom, terrain, self.start_spec() as int, self.goal_spec() as int, self.diagonals_spec()),
    {
        let (start, goal, diag) = (self.start as int, self.goal as int, self.diagonals);
        if crate::route::reachable(dom, terrain, start, goal, diag) {
            let p = choose|p: Seq<u32>| #[trigger] is_walk(dom, terrain, p, diag) && p[0] == start && p.last() == goal;
            if Self::trivial(terrain, self.start, self.goal) {
                let i = p.len() - 1;
                if i > 0 {
                    assert(edge(dom, terrain, p[i - 1] as int, p[i] as int, diag));
                }
            } else {
                reveal(Solver::searching_inv);
                let t = self.expanded as int;
                lemma_walk_closed(self.fwd, dom, terrain, diag, self.frontier_kind, self.g_w as int, self.h_w as int, start, goal,
                    t, p, p.len() - 1);
                lemma_inv_shape(self.fwd, dom, terrain, diag, self.frontier_kind, self.g_w as int, self.h_w as int, start, goal, t,
                    -1, -1);
                if self.two {
                    lemma_inv_shape(self.bwd, dom, terrain, diag, self.frontier_kind, self.g_w as int, self.h_w as int, goal, start,
                        t, -1, -1);
                    let q = seq![self.goal];
                    lemma_walk_closed(self.bwd, dom, terrain, diag, self.frontier_kind, self.g_w as int, self.h_w as int, goal,
                        start, t, q, 0);
                    assert(closed_set(self.fwd.stat@).contains(goal) && closed_set(self.bwd.stat@).contains(goal));
                } else {
                    assert(closed_set(self.fwd.stat@).contains(goal));
                }
            }
        }
    }

    /// Void cells never enter the search: their buffer entry stays free and
    /// no path crosses them.
    pub proof fn lemma_void_untouched(&self, dom: Domain, terrain: Seq<u8>)
        requires
            self.inv(dom, terrain),
        ensures
            forall|i: int| 0 <= i < dom.size() && terrain[i] == T_VOID ==> #[trigger] self.cells_spec()[i] == FREE,
            forall|i: int| 0 <= i < dom.size() && terrain[i] == T_VOID ==> !#[trigger] self.path_spec().contains(i as u32),
    {
        assert forall|i: int| 0 <= i < dom.size() && terrain[i] == T_VOID implies #[trigger] self.cells_spec()[i] == FREE by {
            self.lemma_void_cell(dom, terrain, i);
        }
        assert forall|i: int| 0 <= i < dom.size() && terrain[i] == T_VOID implies !#[trigger] self.path_spec().contains(i as u32) by {
            self.lemma_void_cell(dom, terrain, i);
        }
    }

    proof fn lemma_void_cell(&self, dom: Domain, terrain: Seq<u8>, i: int)
        requires
            self.inv(dom, terrain),
            0 <= i < dom.size(),
            terrain[i] == T_VOID,
        ensures
            self.cells@[i] == FREE,
            !self.path@.contains(i as u32),
    {
        assert(self.cells@[i] == FREE);
        if self.path@.contains(i as u32) {
            let k = choose|k: int| 0 <= k < self.path@.len() && self.path@[k] == i as u32;
            assert(open_cell(endpoints_freed(terrain, self.start as int, self.goal as int), self.path@[k] as int));
        }
    }
}

} // verus!

verus! {

/// The per-axis separation is a metric on each axis: it obeys the triangle
/// inequality.
proof fn lemma_axis_triangle(dom: Domain, axis: int, a: int, b: int, t: int)
    requires
        0 <= axis < 3,
        dom.dim(axis) >= 1,
        0 <= a < dom.dim(axis),
        0 <= b < dom.dim(axis),
        0 <= t < dom.dim(axis),
    ensures
        dom.axis_delta_spec(a, t, axis) <= dom.axis_delta_spec(a, b, axis) + dom.axis_delta_spec(b, t, axis),
        0 <= dom.axis_delta_spec(a, t, axis),
{
}

/// Per-axis separations toward a target change along a move by at most the
/// move's own separation on that axis.
proof fn lemma_delta_move(dom: Domain, a: int, b: int, t: int, axis: int)
    requires
        dom.dims_ok(),
        0 <= axis < 3,
        0 <= a < dom.size(),
        0 <= b < dom.size(),
        0 <= t < dom.size(),
    ensures
        dom.delta(a, t, axis) <= dom.delta(a, b, axis) + dom.delta(b, t, axis),
        0 <= dom.delta(a, t, axis),
        0 <= dom.delta(a, b, axis),
{
    dom.lemma_coords(a);
    dom.lemma_coords(b);
    dom.lemma_coords(t);
    lemma_axis_triangle(dom, axis, dom.coord(a, axis), dom.coord(b, axis), dom.coord(t, axis));
    lemma_axis_triangle(dom, axis, dom.coord(a, axis), dom.coord(a, axis), dom.coord(b, axis));
}

/// One octile form changes by at most its coefficients on the axes that
/// move, which sum to at most the base cost of a move over that many axes.
proof fn lemma_octile_step(a0: int, a1: int, a2: int, b0: int, b1: int, b2: int, e0: int, e1: int, e2: int)
    requires
        0 <= e0 <= 1,
        0 <= e1 <= 1,
        0 <= e2 <= 1,
        a0 <= b0 + e0,
        a1 <= b1 + e1,
        a2 <= b2 + e2,
    ensures
        octile(a0, a1, a2) <= octile(b0, b1, b2) + step_cost(e0 + e1 + e2),
{
    let c1: int = 0x100_0000_0000;
    let c2: int = 1_554_944_255_988 - 0x100_0000_0000;
    let c3: int = 1_904_410_002_821 - 1_554_944_255_988;
    assert(octile(a0, a1, a2) == a0 * c1 + a1 * c2 + a2 * c3);
    assert(octile(b0, b1, b2) == b0 * c1 + b1 * c2 + b2 * c3);
    assert(a0 * c1 <= (b0 + e0) * c1) by (nonlinear_arith)
        requires
            a0 <= b0 + e0,
            c1 == 0x100_0000_0000,
    ;
    assert(a1 * c2 <= (b1 + e1) * c2) by (nonlinear_arith)
        requires
            a1 <= b1 + e1,
            c2 == 1_554_944_255_988 - 0x100_0000_0000,
    ;
    assert(a2 * c3 <= (b2 + e2) * c3) by (nonlinear_arith)
        requires
            a2 <= b2 + e2,
            c3 == 1_904_410_002_821 - 1_554_944_255_988,
    ;
    assert(e0 * c1 + e1 * c2 + e2 * c3 <= step_cost(e0 + e1 + e2)) by {
        if e0 == 0 {
            assert(e0 * c1 == 0);
        } else {
            assert(e0 * c1 == c1);
        }
        if e1 == 0 {
            assert(e1 * c2 == 0);
        } else {
            assert(e1 * c2 == c2);
        }
        if e2 == 0 {
            assert(e2 * c3 == 0);
        } else {
            assert(e2 * c3 == c3);
        }
    }
    assert((b0 + e0) * c1 == b0 * c1 + e0 * c1) by (nonlinear_arith);
    assert((b1 + e1) * c2 == b1 * c2 + e1 * c2) by (nonlinear_arith);
    assert((b2 + e2) * c3 == b2 * c3 + e2 * c3) by (nonlinear_arith);
}

/// The heuristic is consistent: across one move it drops by at most the
/// move's base cost.
#[verifier::spinoff_prover]
#[verifier::rlimit(40)]
pub proof fn lemma_heuristic_consistent(dom: Domain, diagonals: bool, a: int, b: int, target: int)
    requires
        dom.wf(),
        dom.adjacent(a, b, diagonals),
        0 <= target < dom.size(),
    ensures
        heuristic(dom, diagonals, a, target) <= heuristic(dom, diagonals, b, target) + step_cost(dom.step_axes(a, b)),
        0 <= heuristic(dom, diagonals, a, target),
{
    crate::route::lemma_adjacent_step(dom, a, b, diagonals);
    lemma_delta_move(dom, a, b, target, 0);
    lemma_delta_move(dom, a, b, target, 1);
    lemma_delta_move(dom, a, b, target, 2);
    lemma_delta_move(dom, b, b, target, 0);
    lemma_delta_move(dom, b, b, target, 1);
    lemma_delta_move(dom, b, b, target, 2);
    let (a0, a1, a2) = (dom.delta(a, target, 0), dom.delta(a, target, 1), dom.delta(a, target, 2));
    let (b0, b1, b2) = (dom.delta(b, target, 0), dom.delta(b, target, 1), dom.delta(b, target, 2));
    let (e0, e1, e2) = (dom.delta(a, b, 0), dom.delta(a, b, 1), dom.delta(a, b, 2));
    if diagonals {
        lemma_octile_step(a0, a1, a2, b0, b1, b2, e0, e1, e2);
        lemma_octile_step(a0, a2, a1, b0, b2, b1, e0, e2, e1);
        lemma_octile_step(a1, a0, a2, b1, b0, b2, e1, e0, e2);
        lemma_octile_step(a1, a2, a0, b1, b2, b0, e1, e2, e0);
        lemma_octile_step(a2, a0, a1, b2, b0, b1, e2, e0, e1);
        lemma_octile_step(a2, a1, a0, b2, b1, b0, e2, e1, e0);
        assert(octile(a0, a1, a2) >= 0);
    }
}

} // verus!

verus! {

/// The weighted cost of a walk (zero for a sequence that is not one).
pub open spec fn walk_cost(dom: Domain, terrain: Seq<u8>, p: Seq<u32>) -> int {
    match path_cost_spec(dom, terrain, p) {
        Some(c) => c,
        None => 0,
    }
}

/// No walk from `origin` to `u` takes fewer than `c` moves.
pub open spec fn hop_bound(dom: Domain, terrain: Seq<u8>, diagonals: bool, origin: int, u: int, c: int) -> bool {
    forall|p: Seq<u32>| #[trigger] is_walk(dom, terrain, p, diagonals) && p[0] == origin && p.last() == u ==> c <= p.len() - 1
}

/// No walk from `origin` to `u` costs less than `c`.
pub open spec fn least_cost_bound(dom: Domain, terrain: Seq<u8>, diagonals: bool, origin: int, u: int, c: int) -> bool {
    forall|p: Seq<u32>|
        #[trigger] is_walk(dom, terrain, p, diagonals) && p[0] == origin && p.last() == u ==> c <= walk_cost(dom, terrain, p)
}

/// Cost of a walk prefix: each step adds the cost of entering its cell.
proof fn lemma_prefix_cost(dom: Domain, terrain: Seq<u8>, p: Seq<u32>, diagonals: bool, i: int)
    requires
        dom.wf(),
        is_walk(dom, terrain, p, diagonals),
        1 <= i < p.len(),
    ensures
        is_walk(dom, terrain, p.subrange(0, i + 1), diagonals),
        path_cost_spec(dom, terrain, p.subrange(0, i + 1)) is Some,
        walk_cost(dom, terrain, p.subrange(0, i + 1)) == walk_cost(dom, terrain, p.subrange(0, i)) + edge_cost(
            dom,
            terrain,
            p[i - 1] as int,
            p[i] as int,
        ),
        edge_cost(dom, terrain, p[i - 1] as int, p[i] as int) >= step_cost(dom.step_axes(p[i - 1] as int, p[i] as int)),
        step_cost(dom.step_axes(p[i - 1] as int, p[i] as int)) >= 0,
{
    let q = p.subrange(0, i + 1);
    assert forall|k: int| 0 < k < q.len() implies #[trigger] edge(dom, terrain, q[k - 1] as int, q[k] as int, diagonals) by {
        assert(edge(dom, terrain, p[k - 1] as int, p[k] as int, diagonals));
    }
    assert forall|k: int| 0 < k < q.len() implies #[trigger] legal_step(dom, q[k - 1] as int, q[k] as int, diagonals) by {
        assert(edge(dom, terrain, q[k - 1] as int, q[k] as int, diagonals));
        crate::route::lemma_adjacent_step(dom, q[k - 1] as int, q[k] as int, diagonals);
    }
    lemma_legal_cost(dom, terrain, q, diagonals);
    let r = q.subrange(0, i);
    assert(r =~= p.subrange(0, i));
    assert forall|k: int| 0 < k < r.len() implies #[trigger] legal_step(dom, r[k - 1] as int, r[k] as int, diagonals) by {
        assert(legal_step(dom, q[k - 1] as int, q[k] as int, diagonals));
    }
    lemma_legal_cost(dom, terrain, r, diagonals);
    assert(edge(dom, terrain, p[i - 1] as int, p[i] as int, diagonals));
    crate::route::lemma_adjacent_step(dom, p[i - 1] as int, p[i] as int, diagonals);
    let sc = step_cost(dom.step_axes(p[i - 1] as int, p[i] as int));
    let w = terrain[p[i] as int] as int;
    assert(sc * w >= sc) by (nonlinear_arith)
        requires
            sc >= 0,
            w >= 1,
    ;
}

/// Walk costs grow along the walk and are never negative.
proof fn lemma_prefix_monotone(dom: Domain, terrain: Seq<u8>, p: Seq<u32>, diagonals: bool, i: int, j: int)
    requires
        dom.wf(),
        is_walk(dom, terrain, p, diagonals),
        1 <= i <= j <= p.len(),
    ensures
        0 <= walk_cost(dom, terrain, p.subrange(0, i)) <= walk_cost(dom, terrain, p.subrange(0, j)),
    decreases j, i,
{
    if j > i {
        lemma_prefix_monotone(dom, terrain, p, diagonals, i, j - 1);
        lemma_prefix_cost(dom, terrain, p, diagonals, j - 1);
    } else if i == 1 {
        assert(p.subrange(0, 1).len() == 1);
    } else {
        lemma_prefix_monotone(dom, terrain, p, diagonals, 1, i);
    }
}

/// The heuristic never overestimates: no walk from a cell to the target
/// costs less than the heuristic's estimate for that cell, wrapped axes
/// included.
pub proof fn lemma_heuristic_admissible(dom: Domain, terrain: Seq<u8>, diagonals: bool, p: Seq<u32>, target: int)
    requires
        dom.wf(),
        is_walk(dom, terrain, p, diagonals),
        p.last() == target,
        0 <= target < dom.size(),
    ensures
        heuristic(dom, diagonals, p[0] as int, target) <= walk_cost(dom, terrain, p),
{
    let n = p.len() as int;
    if n >= 2 {
        let i: int = 1;
        assert(edge(dom, terrain, p[i - 1] as int, p[i] as int, diagonals));
    }
    lemma_heuristic_along(dom, terrain, p, diagonals, target, 0, n - 1);
    assert(p.subrange(0, n) =~= p);
    assert(p.subrange(0, 1).len() == 1);
    lemma_delta_move(dom, target, target, target, 0);
    lemma_delta_move(dom, target, target, target, 1);
    lemma_delta_move(dom, target, target, target, 2);
    assert(heuristic(dom, diagonals, target, target) == 0);
}

/// Along a walk the heuristic drops by at most the cost walked.
proof fn lemma_heuristic_along(dom: Domain, terrain: Seq<u8>, p: Seq<u32>, diagonals: bool, target: int, i: int, j: int)
    requires
        dom.wf(),
        is_walk(dom, terrain, p, diagonals),
        0 <= target < dom.size(),
        0 <= i <= j < p.len(),
        0 <= p[i] < dom.size(),
    ensures
        heuristic(dom, diagonals, p[i] as int, target) <= walk_cost(dom, terrain, p.subrange(0, j + 1)) - walk_cost(
            dom,
            terrain,
            p.subrange(0, i + 1),
        ) + heuristic(dom, diagonals, p[j] as int, target),
    decreases j - i,
{
    if j > i {
        lemma_heuristic_along(dom, terrain, p, diagonals, target, i, j - 1);
        lemma_prefix_cost(dom, terrain, p, diagonals, j);
        assert(edge(dom, terrain, p[j - 1] as int, p[j] as int, diagonals));
        lemma_heuristic_consistent(dom, diagonals, p[j - 1] as int, p[j] as int, target);
        let hi = heuristic(dom, diagonals, p[i] as int, target);
        let ha = heuristic(dom, diagonals, p[j - 1] as int, target);
        let hb = heuristic(dom, diagonals, p[j] as int, target);
        let ci = walk_cost(dom, terrain, p.subrange(0, i + 1));
        let ca = walk_cost(dom, terrain, p.subrange(0, j));
        let cb = walk_cost(dom, terrain, p.subrange(0, j + 1));
        let e = edge_cost(dom, terrain, p[j - 1] as int, p[j] as int);
        let sc = step_cost(dom.step_axes(p[j - 1] as int, p[j] as int));
        assert(hi <= ca - ci + ha);
        assert(ha <= hb + sc);
        assert(sc <= e);
        assert(cb == ca + e);
        assert(hi <= cb - ci + hb);
    }
}

} // verus!

verus! {

/// The first cell of `p` from index `i` on that is not closed.
proof fn lemma_first_unclosed(stat: Seq<u8>, p: Seq<u32>, i: int) -> (k: int)
    requires
        0 <= i < p.len(),
        forall|j: int| 0 <= j < i ==> #[trigger] stat[p[j] as int] == S_CLOSED,
        stat[p.last() as int] != S_CLOSED,
    ensures
        i <= k < p.len(),
        stat[p[k] as int] != S_CLOSED,
        forall|j: int| 0 <= j < k ==> #[trigger] stat[p[j] as int] == S_CLOSED,
    decreases p.len() - i,
{
    if stat[p[i] as int] != S_CLOSED {
        i
    } else {
        lemma_first_unclosed(stat, p, i + 1)
    }
}

/// For A* and Dijkstra, the open cell with the least priority has a score
/// no walk from the origin beats: any walk there leaves the closed cells at
/// some open cell whose priority, by the consistent heuristic, bounds the
/// walk's cost from below.
#[verifier::spinoff_prover]
#[verifier::rlimit(50)]
proof fn lemma_close_optimal(
    s: Search,
    dom: Domain,
    terrain: Seq<u8>,
    diagonals: bool,
    gw: int,
    hw: int,
    origin: int,
    target: int,
    time: int,
    u: int,
)
    requires
        dom.wf(),
        terrain.len() == dom.size(),
        gw == 2,
        0 <= hw <= 2,
        s.inv(dom, terrain, diagonals, FR_PQ, gw, hw, origin, target, time, u, -1),
        0 <= u < dom.size(),
        s.stat@[u] == S_OPEN,
        forall|v: int|
            0 <= v < dom.size() && v != u && #[trigger] s.stat@[v] == S_OPEN ==> gw * s.g@[u] + hw * heuristic(
                dom,
                diagonals,
                u,
                target,
            ) <= gw * s.g@[v] + hw * heuristic(dom, diagonals, v, target),
    ensures
        least_cost_bound(dom, terrain, diagonals, origin, u, s.g@[u] as int),
{
    reveal(Search::inv);
    let stat = s.stat@;
    let g = s.g@;
    let size = dom.size();
    assert forall|p: Seq<u32>| #[trigger] is_walk(dom, terrain, p, diagonals) && p[0] == origin && p.last() == u implies g[u]
        <= walk_cost(dom, terrain, p) by {
        let n = p.len() as int;
        assert(p.subrange(0, n) =~= p);
        lemma_prefix_monotone(dom, terrain, p, diagonals, 1, n);
        let k = lemma_first_unclosed(stat, p, 0);
        let w = p[k] as int;
        if k == 0 {
            if u != origin {
                assert(stat[s.parent@[u] as int] == S_CLOSED);
            }
        } else {
            let a = p[k - 1] as int;
            assert(stat[a] == S_CLOSED);
            assert(edge(dom, terrain, a, w, diagonals));
            let q = p.subrange(0, k);
            if k >= 2 {
                lemma_prefix_cost(dom, terrain, p, diagonals, k - 1);
            } else {
                assert(is_walk(dom, terrain, q, diagonals));
            }
            assert(q.last() == a && q[0] == origin);
            assert(least_cost_bound(dom, terrain, diagonals, origin, a, g[a] as int));
            assert(g[a] <= walk_cost(dom, terrain, q));
            lemma_prefix_cost(dom, terrain, p, diagonals, k);
            let ck = walk_cost(dom, terrain, p.subrange(0, k + 1));
            assert(g[w] <= ck);
            lemma_prefix_monotone(dom, terrain, p, diagonals, k + 1, n);
            let c = walk_cost(dom, terrain, p);
            if w != u {
                assert(stat[w] == S_OPEN);
                lemma_heuristic_along(dom, terrain, p, diagonals, target, k, n - 1);
                let hu = heuristic(dom, diagonals, u, target);
                let hw_ = heuristic(dom, diagonals, w, target);
                assert(hw_ <= c - ck + hu);
                assert(gw * g[u] + hw * hu <= gw * g[w] + hw * hw_);
                assert(hw * hw_ <= hw * (c - ck + hu)) by (nonlinear_arith)
                    requires
                        0 <= hw,
                        hw_ <= c - ck + hu,
                ;
                assert(hw * (c - ck) <= 2 * (c - ck)) by (nonlinear_arith)
                    requires
                        0 <= hw <= 2,
                        0 <= c - ck,
                ;
                assert(hw * (c - ck + hu) == hw * (c - ck) + hw * hu) by (nonlinear_arith);
            }
        }
    }
}

} // verus!

verus! {

/// For A* and Dijkstra, the invariant bounds every walk to a closed cell by
/// the cell's score.
proof fn lemma_inv_optimal(
    s: Search,
    dom: Domain,
    terrain: Seq<u8>,
    diagonals: bool,
    gw: int,
    hw: int,
    origin: int,
    target: int,
    time: int,
    hole: int,
    pending: int,
    v: int,
)
    requires
        s.inv(dom, terrain, diagonals, FR_PQ, gw, hw, origin, target, time, hole, pending),
        gw == 2,
        hw <= 2,
        0 <= v < dom.size(),
        s.stat@[v] == S_CLOSED,
    ensures
        least_cost_bound(dom, terrain, diagonals, origin, v, s.g@[v] as int),
{
    reveal(Search::inv);
}

/// Down the parent links of a best-first search, a walk costs no more than
/// the score of the cell it reaches.
proof fn lemma_chain_cost(
    s: Search,
    dom: Domain,
    terrain: Seq<u8>,
    diagonals: bool,
    gw: int,
    hw: int,
    origin: int,
    target: int,
    time: int,
    hole: int,
    pending: int,
    p: Seq<u32>,
    k: int,
)
    requires
        dom.wf(),
        s.inv(dom, terrain, diagonals, FR_PQ, gw, hw, origin, target, time, hole, pending),
        is_walk(dom, terrain, p, diagonals),
        p[0] == origin,
        forall|i: int| 0 <= i < p.len() ==> #[trigger] s.members(origin).contains(p[i] as int),
        forall|i: int| 0 < i < p.len() ==> s.parent@[#[trigger] p[i] as int] == p[i - 1],
        0 <= k < p.len(),
    ensures
        walk_cost(dom, terrain, p.subrange(0, k + 1)) <= s.g@[p[k] as int],
    decreases k,
{
    reveal(Search::inv);
    if k == 0 {
        assert(p.subrange(0, 1).len() == 1);
    } else {
        lemma_chain_cost(s, dom, terrain, diagonals, gw, hw, origin, target, time, hole, pending, p, k - 1);
        lemma_prefix_cost(dom, terrain, p, diagonals, k);
        let v = p[k] as int;
        assert(s.members(origin).contains(v));
        assert(s.parent@[v] == p[k - 1]);
        assert(p[k - 1] < dom.size()) by {
            assert(s.members(origin).contains(p[k - 1] as int));
        }
        assert(v != origin);
        assert(s.stat@[v] == S_CLOSED);
    }
}

impl Solver {
    /// A* and Dijkstra find least-cost paths: no walk from the start to the
    /// goal costs less than the path found.
    pub proof fn lemma_optimal(&self, dom: Domain, terrain: Seq<u8>)
        requires
            self.inv(dom, terrain),
            self.found_spec(),
            self.algo_spec() == ALGO_ASTAR || self.algo_spec() == ALGO_DIJKSTRA,
        ensures
            forall|p: Seq<u32>|
                #[trigger] is_walk(dom, terrain, p, self.diagonals_spec()) && p[0] == self.start_spec() && p.last()
                    == self.goal_spec() ==> self.cost_spec() <= walk_cost(dom, terrain, p),
    {
    }
}

} // verus!

verus! {

impl Solver {
    /// The found path as a vector of its own.
    pub fn path_vec(&self) -> (r: Vec<u32>)
        ensures
            r@ == self.path_spec(),
    {
        self.path.clone()
    }
}

} // verus!

verus! {

/// Breadth-first, the cell just taken off the front of the queue has a
/// score no walk from the origin beats in moves: any walk there leaves the
/// closed cells at some queued cell, which scores at most its place on the
/// walk and no less than the front.
proof fn lemma_close_hops(
    s: Search,
    dom: Domain,
    terrain: Seq<u8>,
    diagonals: bool,
    gw: int,
    hw: int,
    origin: int,
    target: int,
    time: int,
    u: int,
)
    requires
        dom.wf(),
        terrain.len() == dom.size(),
        s.inv(dom, terrain, diagonals, FR_FIFO, gw, hw, origin, target, time, u, -1),
        0 <= u < dom.size(),
        s.stat@[u] == S_OPEN,
    ensures
        hop_bound(dom, terrain, diagonals, origin, u, s.g@[u] as int),
{
    reveal(Search::inv);
    let stat = s.stat@;
    let g = s.g@;
    assert forall|p: Seq<u32>| #[trigger] is_walk(dom, terrain, p, diagonals) && p[0] == origin && p.last() == u implies g[u]
        <= p.len() - 1 by {
        let k = lemma_first_unclosed(stat, p, 0);
        let w = p[k] as int;
        if k == 0 {
            if u != origin {
                assert(stat[s.parent@[u] as int] == S_CLOSED);
            }
        } else {
            let a = p[k - 1] as int;
            assert(stat[a] == S_CLOSED);
            assert(edge(dom, terrain, a, w, diagonals));
            let q = p.subrange(0, k);
            assert forall|i: int| 0 < i < q.len() implies #[trigger] edge(dom, terrain, q[i - 1] as int, q[i] as int, diagonals) by {
                assert(edge(dom, terrain, p[i - 1] as int, p[i] as int, diagonals));
            }
            assert(is_walk(dom, terrain, q, diagonals));
            assert(q.last() == a && q[0] == origin);
            assert(hop_bound(dom, terrain, diagonals, origin, a, g[a] as int));
            assert(g[a] <= k - 1);
            assert(g[w] <= k);
            if w != u {
                assert(stat[w] == S_OPEN);
                let i = choose|i: int| 0 <= i < s.fifo@.len() && #[trigger] s.fifo@[i].idx == w;
                assert(g[u] <= s.fifo@[i].g);
            }
        }
    }
}

} // verus!

verus! {

/// Breadth-first, the invariant bounds every walk to a closed cell in moves
/// by the cell's score.
proof fn lemma_inv_hops(
    s: Search,
    dom: Domain,
    terrain: Seq<u8>,
    diagonals: bool,
    gw: int,
    hw: int,
    origin: int,
    target: int,
    time: int,
    hole: int,
    pending: int,
    v: int,
)
    requires
        s.inv(dom, terrain, diagonals, FR_FIFO, gw, hw, origin, target, time, hole, pending),
        0 <= v < dom.size(),
        s.stat@[v] == S_CLOSED,
    ensures
        hop_bound(dom, terrain, diagonals, origin, v, s.g@[v] as int),
{
    reveal(Search::inv);
}

/// Breadth-first, the score of a cell down the parent links is its number
/// of moves from the origin.
proof fn lemma_chain_hops(
    s: Search,
    dom: Domain,
    terrain: Seq<u8>,
    diagonals: bool,
    gw: int,
    hw: int,
    origin: int,
    target: int,
    time: int,
    hole: int,
    pending: int,
    p: Seq<u32>,
    k: int,
)
    requires
        dom.wf(),
        s.inv(dom, terrain, diagonals, FR_FIFO, gw, hw, origin, target, time, hole, pending),
        is_walk(dom, terrain, p, diagonals),
        p[0] == origin,
        forall|i: int| 0 <= i < p.len() ==> #[trigger] s.members(origin).contains(p[i] as int),
        forall|i: int| 0 < i < p.len() ==> s.parent@[#[trigger] p[i] as int] == p[i - 1],
        0 <= k < p.len(),
    ensures
        s.g@[p[k] as int] == k,
    decreases k,
{
    reveal(Search::inv);
    if k > 0 {
        lemma_chain_hops(s, dom, terrain, diagonals, gw, hw, origin, target, time, hole, pending, p, k - 1);
        let v = p[k] as int;
        assert(s.members(origin).contains(v));
        assert(s.parent@[v] == p[k - 1]);
        assert(p[k - 1] < dom.size()) by {
            assert(s.members(origin).contains(p[k - 1] as int));
        }
        assert(v != origin);
        assert(s.stat@[v] == S_CLOSED);
    }
}

impl Solver {
    /// Breadth-first search finds a path of fewest moves: no walk from the
    /// start to the goal takes fewer.
    pub proof fn lemma_fewest_hops(&self, dom: Domain, terrain: Seq<u8>)
        requires
            self.inv(dom, terrain),
            self.found_spec(),
            self.algo_spec() == ALGO_BFS,
        ensures
            forall|p: Seq<u32>|
                #[trigger] is_walk(dom, terrain, p, self.diagonals_spec()) && p[0] == self.start_spec() && p.last()
                    == self.goal_spec() ==> self.path_spec().len() <= p.len(),
    {
    }
}

} // verus!
