//! Route arithmetic: what a sequence of cells costs, whether it is legal,
//! and how to bridge two cells that are not neighbours.

use vstd::prelude::*;

use crate::domain::Domain;
use crate::solver::{hop_bound, step_cost, STEP_COST};
use crate::{T_OBST, T_VOID};

verus! {

/// Weighted cost of a path: per step, the base cost of the (wrap-aware) move
/// times the weight byte of the cell being entered. `None` when some step
/// moves over more than three axes' worth of separation.
pub open spec fn path_cost_spec(dom: Domain, terrain: Seq<u8>, p: Seq<u32>) -> Option<int>
    decreases p.len(),
{
    if p.len() <= 1 {
        Some(0)
    } else {
        let n = p.len() - 1;
        match path_cost_spec(dom, terrain, p.subrange(0, n)) {
            None => None,
            Some(c) => {
                let k = dom.step_axes(p[n - 1] as int, p[n] as int);
                if k >= 4 {
                    None
                } else {
                    Some(c + step_cost(k) * terrain[p[n] as int])
                }
            },
        }
    }
}

/// Once a prefix has no cost, no extension of it has one.
pub proof fn lemma_prefix_none(dom: Domain, terrain: Seq<u8>, p: Seq<u32>, j: int)
    requires
        2 <= j <= p.len(),
        path_cost_spec(dom, terrain, p.subrange(0, j)) is None,
    ensures
        path_cost_spec(dom, terrain, p) is None,
    decreases p.len(),
{
    if j == p.len() {
        assert(p.subrange(0, j) =~= p);
    } else {
        let q = p.subrange(0, p.len() - 1);
        assert(q.subrange(0, j) =~= p.subrange(0, j));
        lemma_prefix_none(dom, terrain, q, j);
    }
}

/// Joining two paths at a shared cell adds their costs; the joined path
/// has no cost exactly when one of the two has none.
pub proof fn lemma_path_cost_concat(dom: Domain, terrain: Seq<u8>, p: Seq<u32>, q: Seq<u32>)
    requires
        p.len() >= 1,
        q.len() >= 1,
        p.last() == q[0],
    ensures
        path_cost_spec(dom, terrain, p + q.drop_first()) == match (
            path_cost_spec(dom, terrain, p),
            path_cost_spec(dom, terrain, q),
        ) {
            (Some(a), Some(b)) => Some(a + b),
            _ => None::<int>,
        },
    decreases q.len(),
{
    let r = p + q.drop_first();
    if q.len() == 1 {
        assert(r =~= p);
    } else {
        let m = q.len() - 1;
        let q1 = q.subrange(0, m);
        lemma_path_cost_concat(dom, terrain, p, q1);
        let n = r.len() - 1;
        assert(r.subrange(0, n) =~= p + q1.drop_first());
        assert(r[n] == q[m]);
        assert(r[n - 1] == q[m - 1]);
    }
}

pub open spec fn cells_in_box(dom: Domain, p: Seq<u32>) -> bool {
    forall|i: int| 0 <= i < p.len() ==> #[trigger] p[i] < dom.size()
}

/// True weighted cost of a path, in units of `COST_ONE`; `None` when a step
/// is not a neighbour move.
pub fn path_cost(dom: &Domain, terrain: &[u8], path: &[u32]) -> (c: Option<u128>)
    requires
        dom.wf(),
        terrain@.len() == dom.size(),
        cells_in_box(*dom, path@),
    ensures
        c is Some <==> path_cost_spec(*dom, terrain@, path@) is Some,
        c matches Some(v) ==> path_cost_spec(*dom, terrain@, path@) == Some(v as int),
{
    let mut acc: u128 = 0;
    let n = path.len();
    if n <= 1 {
        return Some(0);
    }
    let mut i: usize = 1;
    proof {
        assert(path@.subrange(0, 1).len() == 1);
    }
    while i < n
        invariant
            dom.wf(),
            terrain@.len() == dom.size(),
            cells_in_box(*dom, path@),
            n == path@.len(),
            1 <= i <= n,
            path_cost_spec(*dom, terrain@, path@.subrange(0, i as int)) == Some(acc as int),
            acc <= i * 0x1_0000_0000_0000_0000,
        decreases n - i,
    {
        let (ax, ay, az) = dom.coords(path[i - 1]);
        let (bx, by, bz) = dom.coords(path[i]);
        let k = dom.axis_delta(ax, bx, 0) as i64 + dom.axis_delta(ay, by, 1) as i64 + dom.axis_delta(
            az,
            bz,
            2,
        ) as i64;
        let ghost q = path@.subrange(0, i + 1);
        assert(q.subrange(0, i as int) =~= path@.subrange(0, i as int));
        assert(q[i - 1] == path@[i - 1] && q[i as int] == path@[i as int]);
        if k >= 4 {
            proof {
                lemma_prefix_none(*dom, terrain@, path@, i as int + 1);
            }
            return None;
        }
        let w = terrain[path[i] as usize] as u128;
        proof {
            assert(STEP_COST[k as int] as int == step_cost(k as int));
            assert(STEP_COST[k as int] * w <= 0x1_0000_0000_0000_0000) by (nonlinear_arith)
                requires
                    STEP_COST[k as int] <= 2_000_000_000_000,
                    w <= 255,
            ;
        }
        acc = acc + STEP_COST[k as usize] as u128 * w;
        i += 1;
    }
    assert(path@.subrange(0, n as int) =~= path@);
    Some(acc)
}

} // verus!

verus! {

/// The cell is inside the box and its terrain is neither void nor a wall.
pub open spec fn open_cell(terrain: Seq<u8>, c: int) -> bool {
    0 <= c < terrain.len() && terrain[c] != T_VOID && terrain[c] != T_OBST
}

/// One legal step: every axis moves by at most one (wrap-aware), at least
/// one axis moves, and several axes only with diagonals on.
pub open spec fn legal_step(dom: Domain, u: int, v: int, diagonals: bool) -> bool {
    &&& dom.delta(u, v, 0) <= 1
    &&& dom.delta(u, v, 1) <= 1
    &&& dom.delta(u, v, 2) <= 1
    &&& dom.step_axes(u, v) >= 1
    &&& (diagonals || dom.step_axes(u, v) <= 1)
}

/// Why cell `s` of the route fails, checking it and the step into it.
pub open spec fn step_error(dom: Domain, terrain: Seq<u8>, p: Seq<u32>, s: int, diagonals: bool) -> Option<&'static str> {
    let c = p[s] as int;
    if c >= terrain.len() || terrain[c] == T_VOID {
        Some("route leaves the domain")
    } else if terrain[c] == T_OBST {
        Some("route crosses an obstacle")
    } else if s == 0 {
        None
    } else {
        let u = p[s - 1] as int;
        if dom.delta(u, c, 0) > 1 || dom.delta(u, c, 1) > 1 || dom.delta(u, c, 2) > 1 {
            Some("route jumps cells")
        } else if dom.step_axes(u, c) < 1 {
            Some("route repeats a cell")
        } else if !diagonals && dom.step_axes(u, c) > 1 {
            Some("diagonal step with diagonals off")
        } else {
            None
        }
    }
}

/// The first failing cell's reason, scanning from cell `s` on.
pub open spec fn first_error(dom: Domain, terrain: Seq<u8>, p: Seq<u32>, s: int, diagonals: bool) -> Option<&'static str>
    decreases p.len() - s,
{
    if s < 0 || s >= p.len() {
        None
    } else {
        match step_error(dom, terrain, p, s, diagonals) {
            Some(e) => Some(e),
            None => first_error(dom, terrain, p, s + 1, diagonals),
        }
    }
}

/// Why a route is not a legal start-to-goal path, or `None` when it is.
pub open spec fn route_error(dom: Domain, terrain: Seq<u8>, p: Seq<u32>, start: u32, goal: u32, diagonals: bool) -> Option<&'static str> {
    if p.len() == 0 {
        Some("empty route")
    } else if p[0] != start {
        Some("must begin at start")
    } else if p.last() != goal {
        Some("must reach the goal")
    } else {
        first_error(dom, terrain, p, 0, diagonals)
    }
}

/// A legal route: begins at `start`, ends at `goal`, stays on open cells and
/// takes one legal step at a time.
pub open spec fn is_route(dom: Domain, terrain: Seq<u8>, p: Seq<u32>, start: u32, goal: u32, diagonals: bool) -> bool {
    &&& p.len() >= 1
    &&& p[0] == start
    &&& p.last() == goal
    &&& forall|i: int| 0 <= i < p.len() ==> #[trigger] open_cell(terrain, p[i] as int)
    &&& forall|i: int|
        0 < i < p.len() ==> #[trigger] legal_step(dom, p[i - 1] as int, p[i] as int, diagonals)
}

/// A route has no error exactly when it is legal.
pub proof fn lemma_route_error_none(dom: Domain, terrain: Seq<u8>, p: Seq<u32>, start: u32, goal: u32, diagonals: bool)
    ensures
        route_error(dom, terrain, p, start, goal, diagonals) is None <==> is_route(
            dom,
            terrain,
            p,
            start,
            goal,
            diagonals,
        ),
{
    if p.len() > 0 && p[0] == start && p.last() == goal {
        lemma_first_error_none(dom, terrain, p, 0, diagonals);
    }
}

proof fn lemma_first_error_none(dom: Domain, terrain: Seq<u8>, p: Seq<u32>, s: int, diagonals: bool)
    requires
        0 <= s <= p.len(),
    ensures
        first_error(dom, terrain, p, s, diagonals) is None <==> forall|i: int|
            s <= i < p.len() ==> #[trigger] step_error(dom, terrain, p, i, diagonals) is None,
        (forall|i: int| s <= i < p.len() ==> #[trigger] step_error(dom, terrain, p, i, diagonals) is None)
            <==> (forall|i: int| s <= i < p.len() ==> #[trigger] open_cell(terrain, p[i] as int))
            && (forall|i: int|
            s <= i < p.len() && i > 0 ==> #[trigger] legal_step(dom, p[i - 1] as int, p[i] as int, diagonals)),
    decreases p.len() - s,
{
    if s < p.len() {
        lemma_first_error_none(dom, terrain, p, s + 1, diagonals);
        assert forall|i: int| s <= i < p.len() implies (#[trigger] step_error(dom, terrain, p, i, diagonals) is None
            <==> open_cell(terrain, p[i] as int) && (i > 0 ==> legal_step(dom, p[i - 1] as int, p[i] as int, diagonals))) by {
            let c = p[i] as int;
            if i > 0 {
                let u = p[i - 1] as int;
                assert(legal_step(dom, u, c, diagonals) <==> (dom.delta(u, c, 0) <= 1 && dom.delta(u, c, 1) <= 1
                    && dom.delta(u, c, 2) <= 1 && dom.step_axes(u, c) >= 1 && (diagonals || dom.step_axes(u, c) <= 1)));
            }
        }
    }
}

/// `None` when the route is legal, otherwise the reason it is not: it must
/// begin at the start, end at the goal, stay on existing unblocked cells, and
/// take one legal neighbour step at a time.
pub fn validate_route(
    dom: &Domain,
    terrain: &[u8],
    path: &[u32],
    start: u32,
    goal: u32,
    diagonals: bool,
) -> (e: Option<&'static str>)
    requires
        dom.wf(),
        terrain@.len() == dom.size(),
    ensures
        e == route_error(*dom, terrain@, path@, start, goal, diagonals),
{
    if path.len() == 0 {
        return Some("empty route");
    }
    if path[0] != start {
        return Some("must begin at start");
    }
    if path[path.len() - 1] != goal {
        return Some("must reach the goal");
    }
    let mut s: usize = 0;
    while s < path.len()
        invariant
            dom.wf(),
            terrain@.len() == dom.size(),
            s <= path@.len(),
            path@.len() >= 1,
            path@[0] == start,
            path@.last() == goal,
            forall|i: int| 0 <= i < s ==> #[trigger] step_error(*dom, terrain@, path@, i, diagonals) is None,
            first_error(*dom, terrain@, path@, 0, diagonals) == first_error(*dom, terrain@, path@, s as int, diagonals),
        decreases path@.len() - s,
    {
        let cell = path[s];
        proof {
            assert(first_error(*dom, terrain@, path@, s as int, diagonals) == match step_error(
                *dom,
                terrain@,
                path@,
                s as int,
                diagonals,
            ) {
                Some(e) => Some(e),
                None => first_error(*dom, terrain@, path@, s + 1, diagonals),
            });
        }
        if cell as usize >= terrain.len() {
            return Some("route leaves the domain");
        }
        let t = terrain[cell as usize];
        if t == T_VOID {
            return Some("route leaves the domain");
        }
        if t == T_OBST {
            return Some("route crosses an obstacle");
        }
        if s > 0 {
            assert(step_error(*dom, terrain@, path@, s - 1, diagonals) is None);
            let (ax, ay, az) = dom.coords(path[s - 1]);
            let (bx, by, bz) = dom.coords(cell);
            let dx = dom.axis_delta(ax, bx, 0);
            let dy = dom.axis_delta(ay, by, 1);
            let dz = dom.axis_delta(az, bz, 2);
            if dx > 1 || dy > 1 || dz > 1 {
                return Some("route jumps cells");
            }
            let k = dx + dy + dz;
            if k < 1 {
                return Some("route repeats a cell");
            }
            if !diagonals && k > 1 {
                return Some("diagonal step with diagonals off");
            }
        }
        s += 1;
    }
    None
}

} // verus!

verus! {

/// An existing cell whose terrain is open ground of some weight.
pub open spec fn passable(dom: Domain, terrain: Seq<u8>, c: int) -> bool {
    dom.cell_exists(c) && open_cell(terrain, c)
}

/// A move the searches may take: to an adjacent, passable cell.
pub open spec fn edge(dom: Domain, terrain: Seq<u8>, u: int, v: int, diagonals: bool) -> bool {
    dom.adjacent(u, v, diagonals) && passable(dom, terrain, v)
}

/// A sequence of cells joined by moves.
pub open spec fn is_walk(dom: Domain, terrain: Seq<u8>, p: Seq<u32>, diagonals: bool) -> bool {
    &&& p.len() >= 1
    &&& forall|i: int| 0 < i < p.len() ==> #[trigger] edge(dom, terrain, p[i - 1] as int, p[i] as int, diagonals)
}

/// Some walk leads from `from` to `to`.
pub open spec fn reachable(dom: Domain, terrain: Seq<u8>, from: int, to: int, diagonals: bool) -> bool {
    exists|p: Seq<u32>| #[trigger] is_walk(dom, terrain, p, diagonals) && p[0] == from && p.last() == to
}

/// The cell reached by stencil move `j` (0..27, x fastest) when the move is
/// allowed under the diagonal setting.
pub open spec fn stencil_move(dom: Domain, u: int, j: int, diagonals: bool) -> Option<int> {
    let (dx, dy, dz) = crate::terrain::stencil(j);
    if j == 13 || (!diagonals && crate::domain::abs_int(dx) + crate::domain::abs_int(dy)
        + crate::domain::abs_int(dz) > 1) {
        None
    } else {
        dom.neighbor_spec(u, dx, dy, dz)
    }
}

/// Stencil moves reach exactly the adjacent cells.
pub proof fn lemma_stencil_adjacent(dom: Domain, u: int, v: int, diagonals: bool)
    requires
        dom.wf(),
        0 <= u < dom.size(),
    ensures
        dom.adjacent(u, v, diagonals) <==> exists|j: int| 0 <= j < 27 && #[trigger] stencil_move(dom, u, j, diagonals) == Some(v),
{
    if dom.adjacent(u, v, diagonals) {
        let j = lemma_adjacent_stencil(dom, u, v, diagonals);
    }
    assert forall|j: int| 0 <= j < 27 && #[trigger] stencil_move(dom, u, j, diagonals) == Some(v) implies dom.adjacent(u, v, diagonals) by {
        lemma_stencil_move_adjacent(dom, u, j, diagonals);
    }
}

/// The stencil index of a unit move.
proof fn lemma_stencil_index(m: (int, int, int))
    requires
        -1 <= m.0 <= 1,
        -1 <= m.1 <= 1,
        -1 <= m.2 <= 1,
    ensures
        crate::terrain::stencil((m.0 + 1) + 3 * (m.1 + 1) + 9 * (m.2 + 1)) == m,
{
}

/// Every adjacent cell is some stencil move away, by a move touching as
/// many axes as the cells are apart.
pub proof fn lemma_adjacent_stencil(dom: Domain, u: int, v: int, diagonals: bool) -> (j: int)
    requires
        dom.wf(),
        dom.adjacent(u, v, diagonals),
    ensures
        0 <= j < 27,
        stencil_move(dom, u, j, diagonals) == Some(v),
        crate::domain::abs_int(crate::terrain::stencil(j).0) + crate::domain::abs_int(crate::terrain::stencil(j).1)
            + crate::domain::abs_int(crate::terrain::stencil(j).2) == dom.step_axes(u, v),
{
    let m = dom.lemma_adjacent_move(u, v);
    lemma_adjacent_step(dom, u, v, diagonals);
    let j = (m.0 + 1) + 3 * (m.1 + 1) + 9 * (m.2 + 1);
    lemma_stencil_index(m);
    assert(j != 13);
    j
}

/// A stencil move lands on an adjacent cell.
pub proof fn lemma_stencil_move_adjacent(dom: Domain, u: int, j: int, diagonals: bool)
    requires
        dom.wf(),
        0 <= u < dom.size(),
        0 <= j < 27,
        stencil_move(dom, u, j, diagonals) is Some,
    ensures
        dom.adjacent(u, stencil_move(dom, u, j, diagonals).unwrap(), diagonals),
{
    let (dx, dy, dz) = crate::terrain::stencil(j);
    dom.lemma_neighbor_adjacent(u, dx, dy, dz);
}

/// Adjacent cells differ along some axis.
pub proof fn lemma_adjacent_step(dom: Domain, u: int, v: int, diagonals: bool)
    requires
        dom.wf(),
        dom.adjacent(u, v, diagonals),
    ensures
        legal_step(dom, u, v, diagonals),
        1 <= dom.step_axes(u, v) <= 3,
{
    dom.lemma_coords(u);
    dom.lemma_coords(v);
    if dom.step_axes(u, v) == 0 {
        assert(dom.coord(u, 0) == dom.coord(v, 0));
        assert(dom.coord(u, 1) == dom.coord(v, 1));
        assert(dom.coord(u, 2) == dom.coord(v, 2));
    }
}

/// Parent pointers over a set of member cells: the origin has none, every
/// other member points to a member of smaller rank one move back.
pub open spec fn parent_forest(
    dom: Domain,
    terrain: Seq<u8>,
    diagonals: bool,
    origin: int,
    parent: Seq<u32>,
    rank: Seq<int>,
    member: Set<int>,
) -> bool {
    &&& parent.len() == dom.size()
    &&& rank.len() == dom.size()
    &&& 0 <= origin < dom.size()
    &&& member.contains(origin)
    &&& parent[origin] == u32::MAX
    &&& rank[origin] == 0
    &&& forall|v: int| #[trigger] member.contains(v) ==> 0 <= v < dom.size()
    &&& forall|v: int|
        #[trigger] member.contains(v) && v != origin ==> {
            &&& parent[v] < dom.size()
            &&& member.contains(parent[v] as int)
            &&& 0 <= rank[parent[v] as int] < rank[v]
            &&& edge(dom, terrain, parent[v] as int, v, diagonals)
        }
}

pub open spec fn seen_set(seen: Seq<bool>) -> Set<int> {
    Set::new(|v: int| 0 <= v < seen.len() && seen[v])
}

/// Breadth-first bookkeeping apart from how the seen cells split up:
/// parents form a forest over the seen cells, the queue holds seen cells not
/// yet done, each once, and every move out of a done cell leads to a seen one.
pub open spec fn bfs_state(
    dom: Domain,
    terrain: Seq<u8>,
    diagonals: bool,
    from: int,
    seen: Seq<bool>,
    parent: Seq<u32>,
    q: Seq<u32>,
    rank: Seq<int>,
    done: Set<int>,
) -> bool {
    &&& seen.len() == dom.size()
    &&& parent_forest(dom, terrain, diagonals, from, parent, rank, seen_set(seen))
    &&& q.no_duplicates()
    &&& forall|i: int| 0 <= i < q.len() ==> #[trigger] q[i] < dom.size() && seen[q[i] as int] && !done.contains(q[i] as int)
    &&& forall|u: int, v: int|
        #[trigger] done.contains(u) && #[trigger] edge(dom, terrain, u, v, diagonals) ==> 0 <= v < dom.size() && seen[v]
    &&& forall|u: int| #[trigger] done.contains(u) ==> 0 <= u < dom.size() && seen[u]
    &&& done.finite()
}

/// The seen cells are exactly the done ones and the queued ones.
pub open spec fn bfs_inv(
    dom: Domain,
    terrain: Seq<u8>,
    diagonals: bool,
    from: int,
    seen: Seq<bool>,
    parent: Seq<u32>,
    q: Seq<u32>,
    rank: Seq<int>,
    done: Set<int>,
) -> bool {
    &&& bfs_state(dom, terrain, diagonals, from, seen, parent, q, rank, done)
    &&& forall|v: int|
        0 <= v < dom.size() ==> (#[trigger] seen[v] <==> (done.contains(v) || q.contains(v as u32)))
}

/// Discovering `v` from `cur` keeps the bookkeeping intact.
proof fn lemma_bfs_discover(
    dom: Domain,
    terrain: Seq<u8>,
    diagonals: bool,
    from: int,
    seen: Seq<bool>,
    parent: Seq<u32>,
    q: Seq<u32>,
    rank: Seq<int>,
    done: Set<int>,
    cur: u32,
    v: u32,
    next_rank: int,
)
    requires
        dom.wf(),
        bfs_state(dom, terrain, diagonals, from, seen, parent, q, rank, done),
        0 <= cur < dom.size(),
        seen[cur as int],
        !done.contains(cur as int),
        !q.contains(cur),
        0 <= v < dom.size(),
        !seen[v as int],
        edge(dom, terrain, cur as int, v as int, diagonals),
        next_rank == rank[cur as int] + 1,
        forall|w: int|
            0 <= w < dom.size() ==> (#[trigger] seen[w] <==> (done.contains(w) || q.contains(w as u32) || w
                == cur)),
    ensures
        bfs_state(
            dom,
            terrain,
            diagonals,
            from,
            seen.update(v as int, true),
            parent.update(v as int, cur),
            q.push(v),
            rank.update(v as int, next_rank),
            done,
        ),
        parent_forest(
            dom,
            terrain,
            diagonals,
            from,
            parent.update(v as int, cur),
            rank.update(v as int, next_rank),
            seen_set(seen.update(v as int, true)),
        ),
        forall|w: int|
            0 <= w < dom.size() ==> (#[trigger] seen.update(v as int, true)[w] <==> (done.contains(w)
                || q.push(v).contains(w as u32) || w == cur)),
        !q.push(v).contains(cur),
{
    let seen2 = seen.update(v as int, true);
    let parent2 = parent.update(v as int, cur);
    let rank2 = rank.update(v as int, next_rank);
    let q2 = q.push(v);
    assert(seen_set(seen2) =~= seen_set(seen).insert(v as int));
    assert(v != from);
    assert(seen_set(seen).contains(cur as int));
    assert(0 <= rank[cur as int]) by {
        if cur != from {
            assert(0 <= rank[parent[cur as int] as int] < rank[cur as int]);
        }
    }
    assert forall|w: int| #[trigger] seen_set(seen2).contains(w) && w != from implies {
        &&& parent2[w] < dom.size()
        &&& seen_set(seen2).contains(parent2[w] as int)
        &&& 0 <= rank2[parent2[w] as int] < rank2[w]
        &&& edge(dom, terrain, parent2[w] as int, w, diagonals)
    } by {
        if w != v {
            assert(seen_set(seen).contains(w));
            assert(seen_set(seen).contains(parent[w] as int));
        }
    }
    assert(!q.contains(v)) by {
        if q.contains(v) {
            let i = choose|i: int| 0 <= i < q.len() && q[i] == v;
            assert(seen[q[i] as int]);
        }
    }
    assert(q2.no_duplicates()) by {
        assert forall|i: int, j: int| 0 <= i < q2.len() && 0 <= j < q2.len() && i != j implies q2[i] != q2[j] by {
            if i == q.len() as int && j < q.len() {
                assert(q[j] != v);
            } else if j == q.len() as int && i < q.len() {
                assert(q[i] != v);
            }
        }
    }
    assert forall|i: int| 0 <= i < q2.len() implies #[trigger] q2[i] < dom.size() && seen2[q2[i] as int] && !done.contains(q2[i] as int) by {
        if i < q.len() {
            assert(q2[i] == q[i]);
        } else {
            assert(!done.contains(v as int));
        }
    }
    assert forall|w: int| 0 <= w < dom.size() implies (#[trigger] seen2[w] <==> (done.contains(w) || q2.contains(w as u32) || w == cur)) by {
        if q2.contains(w as u32) && w != v {
            let i = choose|i: int| 0 <= i < q2.len() && q2[i] == w as u32;
            assert(q[i] == w as u32);
        }
        if q.contains(w as u32) {
            let i = choose|i: int| 0 <= i < q.len() && q[i] == w as u32;
            assert(q2[i] == w as u32);
        }
        if w == v {
            assert(q2[q.len() as int] == v);
        }
    }
    assert(!q2.contains(cur)) by {
        if q2.contains(cur) {
            let i = choose|i: int| 0 <= i < q2.len() && q2[i] == cur;
            if i < q.len() {
                assert(q[i] == cur);
            }
        }
    }
}

/// Breadth-first layers: a seen cell's rank is one more than its parent's,
/// and no walk from the origin reaches it in fewer moves than its rank.
spec fn bfs_layers(
    dom: Domain,
    terrain: Seq<u8>,
    diagonals: bool,
    from: int,
    seen: Seq<bool>,
    parent: Seq<u32>,
    rank: Seq<int>,
) -> bool {
    &&& forall|v: int|
        0 <= v < dom.size() && #[trigger] seen[v] && v != from ==> rank[v] == rank[parent[v] as int] + 1
    &&& forall|v: int| 0 <= v < dom.size() && #[trigger] seen[v] ==> hop_bound(dom, terrain, diagonals, from, v, rank[v])
}

/// The queue holds ranks in order, each `lo` or one more.
spec fn queue_layered(q: Seq<u32>, rank: Seq<int>, lo: int) -> bool {
    &&& forall|i: int, j: int| #![trigger q[i], q[j]] 0 <= i <= j < q.len() ==> rank[q[i] as int] <= rank[q[j] as int]
    &&& forall|i: int| 0 <= i < q.len() ==> lo <= rank[#[trigger] q[i] as int] <= lo + 1
}

/// The first cell of `p` from index `i` on that has not been seen.
proof fn lemma_first_unseen(seen: Seq<bool>, p: Seq<u32>, i: int) -> (k: int)
    requires
        0 <= i < p.len(),
        forall|j: int| 0 <= j < i ==> #[trigger] seen[p[j] as int],
        !seen[p.last() as int],
    ensures
        i <= k < p.len(),
        !seen[p[k] as int],
        forall|j: int| 0 <= j < k ==> #[trigger] seen[p[j] as int],
    decreases p.len() - i,
{
    if !seen[p[i] as int] {
        i
    } else {
        lemma_first_unseen(seen, p, i + 1)
    }
}

/// While every waiting cell, and the cell being expanded, has rank at least
/// `lo`, a cell not yet seen lies more than `lo` moves from the origin: a
/// walk there leaves the seen cells right after a waiting one, since every
/// move out of a done cell leads to a seen one.
proof fn lemma_unseen_far(
    dom: Domain,
    terrain: Seq<u8>,
    diagonals: bool,
    from: int,
    seen: Seq<bool>,
    parent: Seq<u32>,
    q: Seq<u32>,
    rank: Seq<int>,
    done: Set<int>,
    cur: u32,
    lo: int,
    v: int,
)
    requires
        bfs_state(dom, terrain, diagonals, from, seen, parent, q, rank, done),
        bfs_layers(dom, terrain, diagonals, from, seen, parent, rank),
        forall|w: int|
            0 <= w < dom.size() ==> (#[trigger] seen[w] <==> (done.contains(w) || q.contains(w as u32) || w
                == cur)),
        forall|i: int| 0 <= i < q.len() ==> lo <= rank[#[trigger] q[i] as int],
        rank[cur as int] == lo,
        0 <= v < dom.size(),
        !seen[v],
    ensures
        hop_bound(dom, terrain, diagonals, from, v, lo + 1),
{
    assert(seen_set(seen).contains(from));
    assert forall|p: Seq<u32>| #[trigger] is_walk(dom, terrain, p, diagonals) && p[0] == from && p.last() == v implies lo
        + 1 <= p.len() - 1 by {
        let k = lemma_first_unseen(seen, p, 0);
        assert(k >= 1);
        let a = p[k - 1] as int;
        assert(seen[a]);
        assert(edge(dom, terrain, a, p[k] as int, diagonals));
        assert(0 <= a < dom.size()) by {
            let i = k - 1;
            if i >= 1 {
                assert(edge(dom, terrain, p[i - 1] as int, p[i] as int, diagonals));
            }
        }
        assert(!done.contains(a)) by {
            if done.contains(a) {
                assert(0 <= p[k] < dom.size() && seen[p[k] as int]);
            }
        }
        assert(lo <= rank[a]) by {
            if q.contains(a as u32) {
                let i = choose|i: int| 0 <= i < q.len() && q[i] == a as u32;
                assert(lo <= rank[q[i] as int]);
            }
        }
        let w = p.subrange(0, k);
        assert forall|i: int| 0 < i < w.len() implies #[trigger] edge(dom, terrain, w[i - 1] as int, w[i] as int, diagonals) by {
            assert(edge(dom, terrain, p[i - 1] as int, p[i] as int, diagonals));
        }
        assert(is_walk(dom, terrain, w, diagonals));
        assert(w[0] == from && w.last() == a);
        assert(hop_bound(dom, terrain, diagonals, from, a, rank[a]));
    }
}

/// Discovering `v` from `cur` at one rank past `cur` keeps the layers and
/// the queue order.
proof fn lemma_layers_discover(
    dom: Domain,
    terrain: Seq<u8>,
    diagonals: bool,
    from: int,
    seen: Seq<bool>,
    parent: Seq<u32>,
    q: Seq<u32>,
    rank: Seq<int>,
    done: Set<int>,
    cur: u32,
    v: u32,
    lo: int,
)
    requires
        bfs_state(dom, terrain, diagonals, from, seen, parent, q, rank, done),
        bfs_layers(dom, terrain, diagonals, from, seen, parent, rank),
        queue_layered(q, rank, lo),
        0 <= cur < dom.size(),
        seen[cur as int],
        rank[cur as int] == lo,
        0 <= v < dom.size(),
        !seen[v as int],
        hop_bound(dom, terrain, diagonals, from, v as int, lo + 1),
    ensures
        bfs_layers(
            dom,
            terrain,
            diagonals,
            from,
            seen.update(v as int, true),
            parent.update(v as int, cur),
            rank.update(v as int, lo + 1),
        ),
        queue_layered(q.push(v), rank.update(v as int, lo + 1), lo),
{
    let seen2 = seen.update(v as int, true);
    let parent2 = parent.update(v as int, cur);
    let rank2 = rank.update(v as int, lo + 1);
    let q2 = q.push(v);
    assert(seen_set(seen).contains(from));
    assert forall|w: int| 0 <= w < dom.size() && #[trigger] seen2[w] && w != from implies rank2[w] == rank2[parent2[w] as int]
        + 1 by {
        if w != v {
            assert(seen_set(seen).contains(w));
            assert(seen_set(seen).contains(parent[w] as int));
        }
    }
    assert forall|i: int| 0 <= i < q.len() implies q[i] != v by {
        assert(seen[q[i] as int]);
    }
    assert forall|i: int, j: int| #![trigger q2[i], q2[j]] 0 <= i <= j < q2.len() implies rank2[q2[i] as int] <= rank2[q2[j] as int] by {
        if j < q.len() {
            assert(q[i] != v && q[j] != v);
            assert(rank[q[i] as int] <= rank[q[j] as int]);
        } else if i < q.len() {
            assert(q[i] != v);
            assert(rank[q[i] as int] <= lo + 1);
        }
    }
    assert forall|i: int| 0 <= i < q2.len() implies lo <= rank2[#[trigger] q2[i] as int] <= lo + 1 by {
        if i < q.len() {
            assert(q[i] != v);
            assert(lo <= rank[q[i] as int] <= lo + 1);
        }
    }
}

/// Down the parent links from the origin, a cell's rank is its place on the
/// walk.
proof fn lemma_chain_rank(
    dom: Domain,
    terrain: Seq<u8>,
    diagonals: bool,
    from: int,
    seen: Seq<bool>,
    parent: Seq<u32>,
    rank: Seq<int>,
    p: Seq<u32>,
    k: int,
)
    requires
        dom.wf(),
        seen.len() == dom.size(),
        parent_forest(dom, terrain, diagonals, from, parent, rank, seen_set(seen)),
        bfs_layers(dom, terrain, diagonals, from, seen, parent, rank),
        p[0] == from,
        forall|i: int| 0 <= i < p.len() ==> #[trigger] seen_set(seen).contains(p[i] as int),
        forall|i: int| 0 < i < p.len() ==> parent[#[trigger] p[i] as int] == p[i - 1],
        0 <= k < p.len(),
    ensures
        rank[p[k] as int] == k,
    decreases k,
{
    if k > 0 {
        lemma_chain_rank(dom, terrain, diagonals, from, seen, parent, rank, p, k - 1);
        assert(seen_set(seen).contains(p[k] as int));
        assert(seen_set(seen).contains(p[k - 1] as int));
        assert(parent[p[k] as int] == p[k - 1]);
        assert(p[k] != from);
    }
}

/// Follow parent pointers from `to` back to the origin and return the walk
/// origin -> `to`.
pub(crate) fn trace_back(
    parent: &Vec<u32>,
    to: u32,
    Ghost(dom): Ghost<Domain>,
    Ghost(terrain): Ghost<Seq<u8>>,
    Ghost(diagonals): Ghost<bool>,
    Ghost(origin): Ghost<int>,
    Ghost(rank): Ghost<Seq<int>>,
    Ghost(member): Ghost<Set<int>>,
) -> (p: Vec<u32>)
    requires
        dom.wf(),
        parent_forest(dom, terrain, diagonals, origin, parent@, rank, member),
        member.contains(to as int),
    ensures
        is_walk(dom, terrain, p@, diagonals),
        p@[0] == origin,
        p@.last() == to,
        forall|i: int| 0 <= i < p@.len() ==> #[trigger] member.contains(p@[i] as int),
        forall|i: int| 0 < i < p@.len() ==> parent@[#[trigger] p@[i] as int] == p@[i - 1],
{
    let mut rev: Vec<u32> = vec![to];
    let mut c = to;
    while parent[c as usize] != u32::MAX
        invariant
            dom.wf(),
            parent_forest(dom, terrain, diagonals, origin, parent@, rank, member),
            member.contains(c as int),
            rev@.len() >= 1,
            rev@[0] == to,
            rev@.last() == c,
            forall|i: int| 0 <= i < rev@.len() ==> #[trigger] member.contains(rev@[i] as int),
            forall|i: int|
                0 <= i < rev@.len() - 1 ==> #[trigger] edge(dom, terrain, rev@[i + 1] as int, rev@[i] as int, diagonals),
            forall|i: int| 0 <= i < rev@.len() - 1 ==> parent@[#[trigger] rev@[i] as int] == rev@[i + 1],
        decreases rank[c as int],
    {
        c = parent[c as usize];
        rev.push(c);
    }
    assert(c == origin);
    let mut p: Vec<u32> = Vec::new();
    let mut i = rev.len();
    while i > 0
        invariant
            dom.wf(),
            i <= rev@.len(),
            rev@.len() >= 1,
            rev@[0] == to,
            rev@.last() == origin,
            p@.len() == rev@.len() - i,
            forall|k: int| 0 <= k < p@.len() ==> p@[k] == rev@[rev@.len() - 1 - k],
            forall|k: int| 0 <= k < rev@.len() ==> #[trigger] member.contains(rev@[k] as int),
            forall|k: int|
                0 <= k < rev@.len() - 1 ==> #[trigger] edge(dom, terrain, rev@[k + 1] as int, rev@[k] as int, diagonals),
            forall|k: int| 0 <= k < rev@.len() - 1 ==> parent@[#[trigger] rev@[k] as int] == rev@[k + 1],
        decreases i,
    {
        i -= 1;
        p.push(rev[i]);
    }
    assert forall|k: int| 0 < k < p@.len() implies #[trigger] edge(dom, terrain, p@[k - 1] as int, p@[k] as int, diagonals) by {
        let m = rev@.len() - 1 - k;
        assert(edge(dom, terrain, rev@[m + 1] as int, rev@[m] as int, diagonals));
    }
    assert forall|k: int| 0 <= k < p@.len() implies #[trigger] member.contains(p@[k] as int) by {
        assert(member.contains(rev@[rev@.len() - 1 - k] as int));
    }
    assert forall|k: int| 0 < k < p@.len() implies parent@[#[trigger] p@[k] as int] == p@[k - 1] by {
        let m = rev@.len() - 1 - k;
        assert(parent@[rev@[m] as int] == rev@[m + 1]);
    }
    p
}

/// Explore every move out of `cur`, discovering unseen passable cells; stop
/// with the leg to `to` as soon as it is discovered.
fn bfs_expand(
    dom: &Domain,
    terrain: &[u8],
    diagonals: bool,
    from: u32,
    to: u32,
    cur: u32,
    seen: &mut Vec<bool>,
    parent: &mut Vec<u32>,
    q: &mut std::collections::VecDeque<u32>,
    Ghost(rank0): Ghost<Seq<int>>,
    Ghost(done): Ghost<Set<int>>,
) -> (r: (Option<Vec<u32>>, Ghost<Seq<int>>))
    requires
        dom.wf(),
        terrain@.len() == dom.size(),
        from != to,
        0 <= to < dom.size(),
        0 <= cur < dom.size(),
        old(seen)@[cur as int],
        dom.cell_exists(cur as int),
        !done.contains(cur as int),
        !old(q)@.contains(cur),
        bfs_state(*dom, terrain@, diagonals, from as int, old(seen)@, old(parent)@, old(q)@, rank0, done),
        forall|v: int|
            0 <= v < dom.size() ==> (#[trigger] old(seen)@[v] <==> (done.contains(v) || old(q)@.contains(v as u32)
                || v == cur)),
        !old(seen)@[to as int],
        bfs_layers(*dom, terrain@, diagonals, from as int, old(seen)@, old(parent)@, rank0),
        queue_layered(old(q)@, rank0, rank0[cur as int]),
    ensures
        r.0 matches Some(p) ==> {
            &&& is_walk(*dom, terrain@, p@, diagonals)
            &&& p@[0] == from
            &&& p@.last() == to
            &&& hop_bound(*dom, terrain@, diagonals, from as int, to as int, p@.len() - 1)
        },
        r.0 is None ==> {
            &&& bfs_inv(*dom, terrain@, diagonals, from as int, final(seen)@, final(parent)@, final(q)@, r.1@, done.insert(cur as int))
            &&& !final(seen)@[to as int]
            &&& bfs_layers(*dom, terrain@, diagonals, from as int, final(seen)@, final(parent)@, r.1@)
            &&& queue_layered(final(q)@, r.1@, rank0[cur as int])
        },
{
    let total = dom.total();
    let ghost mut rank = rank0;
    let ghost lo = rank0[cur as int];
    let mut j: i32 = 0;
    while j < 27
        invariant
            dom.wf(),
            terrain@.len() == dom.size(),
            total == dom.size(),
            from != to,
            0 <= to < total,
            0 <= j <= 27,
            0 <= cur < total,
            seen@[cur as int],
            dom.cell_exists(cur as int),
            !done.contains(cur as int),
            !q@.contains(cur),
            bfs_state(*dom, terrain@, diagonals, from as int, seen@, parent@, q@, rank, done),
            forall|v: int|
                0 <= v < dom.size() ==> (#[trigger] seen@[v] <==> (done.contains(v) || q@.contains(v as u32)
                    || v == cur)),
            !seen@[to as int],
            rank[cur as int] == lo,
            bfs_layers(*dom, terrain@, diagonals, from as int, seen@, parent@, rank),
            queue_layered(q@, rank, lo),
            forall|k: int|
                0 <= k < j && (#[trigger] stencil_move(*dom, cur as int, k, diagonals)) is Some && passable(
                    *dom,
                    terrain@,
                    stencil_move(*dom, cur as int, k, diagonals).unwrap(),
                ) ==> seen@[stencil_move(*dom, cur as int, k, diagonals).unwrap()],
        decreases 27 - j,
    {
        let (dx, dy, dz) = (j % 3 - 1, (j / 3) % 3 - 1, j / 9 - 1);
        assert(crate::terrain::stencil(j as int) == (dx as int, dy as int, dz as int));
        let skip = j == 13 || (!diagonals && (if dx < 0 { -dx } else { dx }) + (if dy < 0 { -dy } else { dy }) + (
        if dz < 0 {
            -dz
        } else {
            dz
        }) > 1);
        if !skip {
            match dom.neighbor(cur, dx, dy, dz) {
                Some(ni) => {
                    let nu = ni as usize;
                    if !(seen[nu] || terrain[nu] == T_OBST || terrain[nu] == T_VOID) {
                        proof {
                            dom.lemma_neighbor_adjacent(cur as int, dx as int, dy as int, dz as int);
                            assert(edge(*dom, terrain@, cur as int, ni as int, diagonals));
                            lemma_unseen_far(*dom, terrain@, diagonals, from as int, seen@, parent@, q@, rank, done, cur, lo, ni as int);
                            lemma_bfs_discover(*dom, terrain@, diagonals, from as int, seen@, parent@, q@, rank, done, cur, ni, lo + 1);
                            lemma_layers_discover(*dom, terrain@, diagonals, from as int, seen@, parent@, q@, rank, done, cur, ni, lo);
                        }
                        seen.set(nu, true);
                        parent.set(nu, cur);
                        proof {
                            rank = rank.update(ni as int, lo + 1);
                        }
                        if ni == to {
                            let leg = trace_back(
                                parent,
                                to,
                                Ghost(*dom),
                                Ghost(terrain@),
                                Ghost(diagonals),
                                Ghost(from as int),
                                Ghost(rank),
                                Ghost(seen_set(seen@)),
                            );
                            proof {
                                lemma_chain_rank(*dom, terrain@, diagonals, from as int, seen@, parent@, rank, leg@, leg@.len() - 1);
                            }
                            return (Some(leg), Ghost(rank));
                        }
                        q.push_back(ni);
                    }
                },
                None => {},
            }
        }
        j += 1;
    }
    proof {
        assert forall|v: int| edge(*dom, terrain@, cur as int, v, diagonals) implies 0 <= v < dom.size() && seen@[v] by {
            lemma_stencil_adjacent(*dom, cur as int, v, diagonals);
            let k = choose|k: int| 0 <= k < 27 && #[trigger] stencil_move(*dom, cur as int, k, diagonals) == Some(v);
        }
        let d2 = done.insert(cur as int);
        assert forall|w: int| 0 <= w < dom.size() implies (#[trigger] seen@[w] <==> (d2.contains(w) || q@.contains(w as u32))) by {}
        assert forall|u: int, v: int| #[trigger] d2.contains(u) && #[trigger] edge(*dom, terrain@, u, v, diagonals) implies 0 <= v < dom.size() && seen@[v] by {
            if u != cur {
                assert(done.contains(u));
            }
        }
        assert forall|i: int| 0 <= i < q@.len() implies #[trigger] q@[i] < dom.size() && seen@[q@[i] as int] && !d2.contains(q@[i] as int) by {
            assert(q@[i] != cur);
        }
    }
    (None, Ghost(rank))
}

/// Shortest hop-count leg between two cells, inclusive of both ends, or
/// `None` if no open route exists.
pub fn connect(dom: &Domain, terrain: &[u8], from: u32, to: u32, diagonals: bool) -> (r: Option<Vec<u32>>)
    requires
        dom.wf(),
        terrain@.len() == dom.size(),
    ensures
        from == to ==> r is Some && r.unwrap()@ == seq![from],
        from != to && !(dom.cell_exists(from as int) && dom.cell_exists(to as int) && terrain@[to as int] != T_OBST
            && terrain@[from as int] != T_OBST) ==> r is None,
        from != to && dom.cell_exists(from as int) && dom.cell_exists(to as int) && terrain@[to as int] != T_OBST
            && terrain@[from as int] != T_OBST ==> (r is None <==> !reachable(*dom, terrain@, from as int, to as int, diagonals)),
        r matches Some(p) ==> is_walk(*dom, terrain@, p@, diagonals) && p@[0] == from && p@.last() == to,
        r matches Some(p) ==> forall|w: Seq<u32>|
            #[trigger] is_walk(*dom, terrain@, w, diagonals) && w[0] == from && w.last() == to ==> p@.len() <= w.len(),
{
    if from == to {
        let v = vec![from];
        assert(is_walk(*dom, terrain@, v@, diagonals));
        return Some(v);
    }
    let total = dom.total();
    if !dom.exists_at(from) || !dom.exists_at(to) {
        return None;
    }
    if terrain[to as usize] == T_OBST || terrain[from as usize] == T_OBST {
        return None;
    }
    let mut parent: Vec<u32> = vec![u32::MAX; total];
    let mut seen: Vec<bool> = vec![false; total];
    let mut q: std::collections::VecDeque<u32> = std::collections::VecDeque::new();
    seen.set(from as usize, true);
    q.push_back(from);
    let ghost mut rank: Seq<int> = Seq::new(total as nat, |i: int| if i == from { 0 } else { -1 });
    let ghost mut done: Set<int> = Set::empty();
    proof {
        assert(seen_set(seen@) =~= set![from as int]);
        assert(q@ =~= seq![from]);
        assert forall|v: int| 0 <= v < dom.size() implies (#[trigger] seen@[v] <==> (done.contains(v) || q@.contains(v as u32))) by {
            if v == from {
                assert(q@[0] == from);
            }
            if q@.contains(v as u32) {
                let i = choose|i: int| 0 <= i < q@.len() && q@[i] == v as u32;
                assert(i == 0);
            }
        }
    }
    while q.len() > 0
        invariant
            dom.wf(),
            terrain@.len() == dom.size(),
            total == dom.size(),
            from != to,
            0 <= to < total,
            dom.cell_exists(from as int),
            dom.cell_exists(to as int),
            terrain@[to as int] != T_OBST,
            terrain@[from as int] != T_OBST,
            bfs_inv(*dom, terrain@, diagonals, from as int, seen@, parent@, q@, rank, done),
            !seen@[to as int],
            bfs_layers(*dom, terrain@, diagonals, from as int, seen@, parent@, rank),
            q@.len() > 0 ==> queue_layered(q@, rank, rank[q@[0] as int]),
            done.subset_of(Set::new(|v: int| 0 <= v < total)),
        decreases total - done.len(),
    {
        let ghost qa = q@;
        let cur = q.pop_front().unwrap();
        let ghost q0 = q@;
        proof {
            assert(qa =~= seq![cur].add(q0));
            assert(qa[0] == cur);
            assert forall|i: int, j: int| #![trigger q0[i], q0[j]] 0 <= i <= j < q0.len() implies rank[q0[i] as int]
                <= rank[q0[j] as int] by {
                assert(qa[i + 1] == q0[i] && qa[j + 1] == q0[j]);
            }
            assert forall|i: int| 0 <= i < q0.len() implies rank[cur as int] <= rank[#[trigger] q0[i] as int] <= rank[cur as int]
                + 1 by {
                assert(qa[i + 1] == q0[i]);
                assert(rank[qa[0] as int] <= rank[qa[i + 1] as int]);
            }
            assert(!q0.contains(cur)) by {
                if q0.contains(cur) {
                    let i = choose|i: int| 0 <= i < q0.len() && q0[i] == cur;
                    assert(qa[i + 1] == qa[0]);
                }
            }
            assert forall|v: int| 0 <= v < dom.size() implies (#[trigger] seen@[v] <==> (done.contains(v) || q@.contains(v as u32)
                || v == cur)) by {
                if qa.contains(v as u32) && v != cur {
                    let i = choose|i: int| 0 <= i < qa.len() && qa[i] == v as u32;
                    assert(q0[i - 1] == v as u32);
                }
                if q0.contains(v as u32) {
                    let i = choose|i: int| 0 <= i < q0.len() && q0[i] == v as u32;
                    assert(qa[i + 1] == v as u32);
                }
            }
            assert(dom.cell_exists(cur as int)) by {
                if cur != from {
                    let member = seen_set(seen@);
                    assert(parent_forest(*dom, terrain@, diagonals, from as int, parent@, rank, member));
                    assert(member.contains(cur as int));
                    assert(edge(*dom, terrain@, parent@[cur as int] as int, cur as int, diagonals));
                }
            }
            vstd::set_lib::lemma_int_range(0, total as int);
            assert(Set::new(|v: int| 0 <= v < total) =~= vstd::set_lib::set_int_range(0, total as int));
            vstd::set_lib::lemma_len_subset(done.insert(cur as int), Set::new(|v: int| 0 <= v < total));
        }
        let (found, Ghost(rank2)) = bfs_expand(
            dom,
            terrain,
            diagonals,
            from,
            to,
            cur,
            &mut seen,
            &mut parent,
            &mut q,
            Ghost(rank),
            Ghost(done),
        );
        if found.is_some() {
            return found;
        }
        proof {
            rank = rank2;
            done = done.insert(cur as int);
            if q@.len() > 0 {
                let lo = rank[q@[0] as int];
                assert forall|i: int| 0 <= i < q@.len() implies lo <= rank[#[trigger] q@[i] as int] <= lo + 1 by {
                    assert(rank[q@[0] as int] <= rank[q@[i] as int]);
                }
            }
        }
    }
    proof {
        assert(!reachable(*dom, terrain@, from as int, to as int, diagonals)) by {
            if reachable(*dom, terrain@, from as int, to as int, diagonals) {
                let p = choose|p: Seq<u32>| #[trigger] is_walk(*dom, terrain@, p, diagonals) && p[0] == from && p.last() == to;
                lemma_walk_stays(*dom, terrain@, diagonals, from as int, seen@, parent@, q@, rank, done, p, p.len() - 1);
            }
        }
    }
    None
}

/// With the queue empty, everything a walk from the origin visits was seen.
proof fn lemma_walk_stays(
    dom: Domain,
    terrain: Seq<u8>,
    diagonals: bool,
    from: int,
    seen: Seq<bool>,
    parent: Seq<u32>,
    q: Seq<u32>,
    rank: Seq<int>,
    done: Set<int>,
    p: Seq<u32>,
    k: int,
)
    requires
        bfs_inv(dom, terrain, diagonals, from, seen, parent, q, rank, done),
        q.len() == 0,
        is_walk(dom, terrain, p, diagonals),
        p[0] == from,
        0 <= k < p.len(),
    ensures
        0 <= p[k] < dom.size() && seen[p[k] as int],
    decreases k,
{
    if k > 0 {
        lemma_walk_stays(dom, terrain, diagonals, from, seen, parent, q, rank, done, p, k - 1);
        assert(edge(dom, terrain, p[k - 1] as int, p[k] as int, diagonals));
        assert(done.contains(p[k - 1] as int));
    }
}

} // verus!
