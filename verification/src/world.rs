//! The world a front end drives: the domain, its terrain, the endpoints, the
//! live search, a hand-drawn route and the cached optimal reference.
//!
//! Terrain generation samples floating-point shapes, so the world is built
//! from a terrain its caller generated for the same preset and size.

use vstd::prelude::*;

use crate::domain::{Domain, Preset, preset_dims, preset_fits};
use crate::route::{is_route, is_walk, path_cost_spec, reachable, route_error};
use crate::solver::{
    endpoints_freed, lemma_finish_count, lemma_freed_unchanged, lemma_steps_add, least_cost_bound, replay, run_budget,
    run_length, walk_cost, Solver, SolverState, ALGO_ASTAR, ALGO_DFS, ALGO_DIJKSTRA,
};
use crate::terrain::valid_byte;
use crate::pick::{snapped, Hit};
use crate::{ROUTE_BLOCKED, ROUTE_FINISHED, ROUTE_OK, ROUTE_UNREACHABLE, T_OBST, T_VOID, W_MAX};

verus! {

/// What the cached optimal reference records about the world it was
/// computed for: a least-cost route and its cost, or no route at all; in
/// either case what an A* search of the world run to the end gives.
pub open spec fn optimal_facts(
    dom: Domain,
    terrain: Seq<u8>,
    start: u32,
    goal: u32,
    diagonals: bool,
    cost: Option<u128>,
    path: Seq<u32>,
) -> bool {
    let end = replay(dom, terrain, start, goal, diagonals, ALGO_ASTAR, run_budget(dom));
    &&& path == end.9
    &&& cost == if end.7 {
        Some(end.8)
    } else {
        None
    }
    &&& match cost {
        Some(c) => {
            &&& least_cost_bound(dom, terrain, diagonals, start as int, goal as int, c as int)
            &&& is_route(dom, endpoints_freed(terrain, start as int, goal as int), path, start, goal, diagonals)
            &&& path_cost_spec(dom, terrain, path) == Some(c as int)
        },
        None => {
            &&& path.len() == 0
            &&& terrain[start as int] != T_VOID ==> !reachable(dom, terrain, start as int, goal as int, diagonals)
        },
    }
}

pub struct World {
    dom: Domain,
    terrain: Vec<u8>,
    /// The terrain the live search runs over: the terrain as it was when the
    /// search was last reset.
    searched: Vec<u8>,
    preset: Preset,
    size: u32,
    density: u32,
    seed: u32,
    empty: bool,
    start: u32,
    goal: u32,
    diagonals: bool,
    algo: u8,
    solver: Solver,
    /// Set by any edit that invalidates the running search; the front end
    /// resets when the gesture ends rather than restarting mid-stroke.
    stale: bool,
    /// Expansion count of a completed search, for the scrub bar.
    total_steps: Option<u32>,
    /// Cached A* reference solve, used to score hand-drawn routes.
    optimal: Option<(Option<u128>, Vec<u32>)>,
    route: Vec<u32>,
    /// Route lengths before each committed leg, so undo removes a whole leg.
    route_marks: Vec<u32>,
    /// Reference cell for building in open space.
    anchor: u32,
}

impl World {
    pub closed spec fn dom_spec(&self) -> Domain {
        self.dom
    }

    pub closed spec fn terrain_spec(&self) -> Seq<u8> {
        self.terrain@
    }

    pub closed spec fn start_spec(&self) -> u32 {
        self.start
    }

    pub closed spec fn goal_spec(&self) -> u32 {
        self.goal
    }

    pub closed spec fn diagonals_spec(&self) -> bool {
        self.diagonals
    }

    pub closed spec fn algo_spec(&self) -> u8 {
        self.algo
    }

    pub closed spec fn stale_spec(&self) -> bool {
        self.stale
    }

    pub closed spec fn solver_spec(&self) -> Solver {
        self.solver
    }

    pub closed spec fn route_spec(&self) -> Seq<u32> {
        self.route@
    }

    pub closed spec fn anchor_spec(&self) -> u32 {
        self.anchor
    }

    pub closed spec fn seed_spec(&self) -> u32 {
        self.seed
    }

    pub closed spec fn optimal_spec(&self) -> Option<(Option<u128>, Seq<u32>)> {
        match self.optimal {
            Some((c, p)) => Some((c, p@)),
            None => None,
        }
    }

    /// Everything that holds of a world between calls.
    pub closed spec fn wf(&self) -> bool {
        let size = self.dom.size();
        &&& self.dom.wf()
        &&& self.terrain@.len() == size
        &&& self.searched@.len() == size
        &&& self.solver.inv(self.dom, endpoints_freed(self.searched@, self.solver.start_spec() as int, self.solver.goal_spec() as int))
        &&& self.start < size
        &&& self.goal < size
        &&& self.terrain@[self.start as int] != T_OBST
        &&& self.terrain@[self.goal as int] != T_OBST
        &&& self.start != self.goal
        &&& self.dom.cell_exists(self.start as int)
        &&& self.dom.cell_exists(self.goal as int)
        &&& self.anchor < size
        &&& self.algo <= ALGO_DFS
        &&& forall|i: int| 0 <= i < size ==> #[trigger] valid_byte(self.terrain@[i])
        &&& forall|i: int| 0 <= i < size ==> (#[trigger] self.terrain@[i] == T_VOID <==> !self.dom.cell_exists(i))
        &&& forall|k: int| 0 <= k < self.route@.len() ==> #[trigger] self.route@[k] < size
        &&& self.optimal matches Some((c, p)) ==> optimal_facts(self.dom, self.terrain@, self.start, self.goal, self.diagonals, c, p@)
        &&& self.total_steps matches Some(n) ==> run_length(self.dom, self.terrain@, self.start, self.goal, self.diagonals, self.algo, n)
    }

    /// The state a fresh search of the present world reaches after `n`
    /// steps.
    pub open spec fn replayed(&self, n: nat) -> SolverState {
        replay(self.dom_spec(), self.terrain_spec(), self.start_spec(), self.goal_spec(), self.diagonals_spec(), self.algo_spec(), n)
    }

    /// The live search is current and is where a fresh search of the
    /// present world is after `k` steps.
    pub open spec fn at_step(&self, k: nat) -> bool {
        &&& self.search_current()
        &&& self.solver_spec().state() == self.replayed(k)
    }

    /// The search the world shows is current: it runs over the present
    /// terrain, endpoints, adjacency and algorithm.
    pub closed spec fn search_current(&self) -> bool {
        &&& self.searched@ == self.terrain@
        &&& self.solver.start_spec() == self.start
        &&& self.solver.goal_spec() == self.goal
        &&& self.solver.diagonals_spec() == self.diagonals
        &&& self.solver.algo_spec() == self.algo
    }
}

/// A terrain byte fitted to the domain's shape: void outside it, and never
/// void inside it, where a void byte reads as weight-1 ground.
pub open spec fn fitted(dom: Domain, t: u8, i: int) -> u8 {
    if !dom.cell_exists(i) {
        T_VOID
    } else if t == T_VOID {
        1u8
    } else {
        t
    }
}

/// The terrain a world starts from: the generated bytes clamped into the
/// encoding and fitted to the shape, with walls lifted off the endpoints.
pub open spec fn prepared(dom: Domain, generated: Seq<u8>, start: u32, goal: u32, i: int) -> u8 {
    let t = fitted(dom, crate::terrain::sanitized(generated[i]), i);
    if (i == start || i == goal) && t == T_OBST {
        1u8
    } else {
        t
    }
}

/// Fit terrain to the domain's shape, cell by cell.
fn fit_shape(dom: &Domain, terrain: &mut Vec<u8>)
    requires
        dom.wf(),
        old(terrain)@.len() == dom.size(),
    ensures
        final(terrain)@.len() == old(terrain)@.len(),
        forall|i: int| 0 <= i < old(terrain)@.len() ==> #[trigger] final(terrain)@[i] == fitted(*dom, old(terrain)@[i], i),
{
    let n = terrain.len();
    let mut i: usize = 0;
    while i < n
        invariant
            dom.wf(),
            n == dom.size(),
            n == terrain@.len(),
            terrain@.len() == old(terrain)@.len(),
            i <= n,
            forall|j: int| 0 <= j < i ==> #[trigger] terrain@[j] == fitted(*dom, old(terrain)@[j], j),
            forall|j: int| i <= j < n ==> #[trigger] terrain@[j] == old(terrain)@[j],
        decreases n - i,
    {
        if !dom.exists_at(i as u32) {
            terrain.set(i, T_VOID);
        } else if terrain[i] == T_VOID {
            terrain.set(i, 1);
        }
        i += 1;
    }
}

impl World {
    /// Build the world for a preset from its generated terrain.
    #[verifier::spinoff_prover]
    #[verifier::rlimit(40)]
    pub fn new(preset: &str, size: u32, density: u32, seed: u32, empty: bool, generated: Vec<u8>) -> (w: World)
        requires
            preset_fits(Preset::from_name(preset@), size),
            generated@.len() == preset_dims(Preset::from_name(preset@), size).0 * preset_dims(Preset::from_name(preset@), size).1
                * preset_dims(Preset::from_name(preset@), size).2,
        ensures
            w.wf(),
            w.search_current(),
            !w.stale_spec(),
            w.dom_spec().preset == Preset::from_name(preset@),
            w.dom_spec().is_preset(Preset::from_name(preset@), size),
            w.seed_spec() == seed,
            w.start_spec() == w.dom_spec().start,
            w.goal_spec() == w.dom_spec().goal,
            w.diagonals_spec(),
            w.algo_spec() == ALGO_ASTAR,
            w.route_spec().len() == 0,
            w.solver_spec().expanded_spec() == 0,
            w.at_step(0),
            forall|i: int| 0 <= i < w.dom_spec().size() ==> #[trigger] w.terrain_spec()[i] == prepared(w.dom_spec(), generated@,
                w.start_spec(), w.goal_spec(), i),
            w.anchor_spec() == w.dom_spec().index_of(w.dom_spec().nx / 2, w.dom_spec().ny / 2, w.dom_spec().nz / 2),
    {
        let p = Preset::parse(preset);
        let dom = Domain::preset(p, size);
        let (start, goal) = (dom.start, dom.goal);
        let mut terrain = generated;
        crate::terrain::sanitize(&mut terrain);
        fit_shape(&dom, &mut terrain);
        crate::terrain::free_endpoints(&mut terrain, start, goal);
        let searched = terrain.clone();
        proof {
            assert(searched@ == terrain@);
            assert forall|i: int| 0 <= i < dom.size() implies #[trigger] valid_byte(terrain@[i]) by {}
        }
        let solver = Solver::new(&dom, &searched, start, goal, true, ALGO_ASTAR);
        let anchor = dom.idx(dom.nx / 2, dom.ny / 2, dom.nz / 2);
        World {
            dom,
            terrain,
            searched,
            preset: p,
            size,
            density,
            seed,
            empty,
            start,
            goal,
            diagonals: true,
            algo: ALGO_ASTAR,
            solver,
            stale: false,
            total_steps: None,
            optimal: None,
            route: Vec::new(),
            route_marks: Vec::new(),
            anchor,
        }
    }
}

} // verus!

verus! {

impl World {
    /// Rebuild the solver at expansion zero over the present world.
    pub fn reset_search(&mut self)
        requires
            old(self).wf(),
        ensures
            final(self).wf(),
            final(self).search_current(),
            !final(self).stale_spec(),
            final(self).solver_spec().expanded_spec() == 0,
            final(self).at_step(0),
            final(self).dom_spec() == old(self).dom_spec(),
            final(self).terrain_spec() == old(self).terrain_spec(),
            final(self).start_spec() == old(self).start_spec(),
            final(self).goal_spec() == old(self).goal_spec(),
            final(self).diagonals_spec() == old(self).diagonals_spec(),
            final(self).algo_spec() == old(self).algo_spec(),
            final(self).route_spec() == old(self).route_spec(),
            final(self).anchor_spec() == old(self).anchor_spec(),
            final(self).seed_spec() == old(self).seed_spec(),
            final(self).optimal_spec() == old(self).optimal_spec(),
    {
        self.searched = self.terrain.clone();
        self.solver = Solver::new(&self.dom, &self.searched, self.start, self.goal, self.diagonals, self.algo);
        self.stale = false;
    }

    /// Drop cached derived values without touching the live solver.
    fn invalidate_caches(&mut self)
        ensures
            final(self).total_steps is None,
            final(self).optimal is None,
            final(self).dom == old(self).dom,
            final(self).terrain == old(self).terrain,
            final(self).searched == old(self).searched,
            final(self).solver == old(self).solver,
            final(self).start == old(self).start,
            final(self).goal == old(self).goal,
            final(self).diagonals == old(self).diagonals,
            final(self).algo == old(self).algo,
            final(self).route == old(self).route,
            final(self).route_marks == old(self).route_marks,
            final(self).anchor == old(self).anchor,
            final(self).stale == old(self).stale,
            final(self).seed == old(self).seed,
    {
        self.total_steps = None;
        self.optimal = None;
    }

    /// Flag the displayed search stale and drop the caches.
    fn invalidate(&mut self)
        ensures
            final(self).stale,
            final(self).total_steps is None,
            final(self).optimal is None,
            final(self).dom == old(self).dom,
            final(self).terrain == old(self).terrain,
            final(self).searched == old(self).searched,
            final(self).solver == old(self).solver,
            final(self).start == old(self).start,
            final(self).goal == old(self).goal,
            final(self).diagonals == old(self).diagonals,
            final(self).algo == old(self).algo,
            final(self).route == old(self).route,
            final(self).route_marks == old(self).route_marks,
            final(self).anchor == old(self).anchor,
            final(self).seed == old(self).seed,
    {
        self.stale = true;
        self.invalidate_caches();
    }

    /// Rebuild the world from scratch for a preset and its generated terrain.
    /// The algorithm and the diagonal setting are kept.
    pub fn rebuild(&mut self, preset: &str, size: u32, density: u32, seed: u32, empty: bool, generated: Vec<u8>)
        requires
            old(self).wf(),
            preset_fits(Preset::from_name(preset@), size),
            generated@.len() == preset_dims(Preset::from_name(preset@), size).0 * preset_dims(Preset::from_name(preset@), size).1
                * preset_dims(Preset::from_name(preset@), size).2,
        ensures
            final(self).wf(),
            final(self).search_current(),
            !final(self).stale_spec(),
            final(self).dom_spec().preset == Preset::from_name(preset@),
            final(self).dom_spec().is_preset(Preset::from_name(preset@), size),
            final(self).seed_spec() == seed,
            final(self).start_spec() == final(self).dom_spec().start,
            final(self).goal_spec() == final(self).dom_spec().goal,
            final(self).diagonals_spec() == old(self).diagonals_spec(),
            final(self).algo_spec() == old(self).algo_spec(),
            final(self).route_spec().len() == 0,
            final(self).solver_spec().expanded_spec() == 0,
            final(self).at_step(0),
            forall|i: int| 0 <= i < final(self).dom_spec().size() ==> #[trigger] final(self).terrain_spec()[i] == prepared(
                final(self).dom_spec(),
                generated@,
                final(self).start_spec(),
                final(self).goal_spec(),
                i,
            ),
    {
        self.preset = Preset::parse(preset);
        self.size = size;
        self.density = density;
        self.seed = seed;
        self.empty = empty;
        self.dom = Domain::preset(self.preset, size);
        self.start = self.dom.start;
        self.goal = self.dom.goal;
        let mut terrain = generated;
        crate::terrain::sanitize(&mut terrain);
        fit_shape(&self.dom, &mut terrain);
        crate::terrain::free_endpoints(&mut terrain, self.start, self.goal);
        self.terrain = terrain;
        self.anchor = self.dom.idx(self.dom.nx / 2, self.dom.ny / 2, self.dom.nz / 2);
        self.route = Vec::new();
        self.route_marks = Vec::new();
        self.invalidate();
        self.searched = self.terrain.clone();
        self.solver = Solver::new(&self.dom, &self.searched, self.start, self.goal, self.diagonals, self.algo);
        self.stale = false;
        proof {
            assert forall|i: int| 0 <= i < self.dom.size() implies #[trigger] valid_byte(self.terrain@[i]) by {}
        }
    }

    /// Wipe obstacles and weights back to weight-1 ground, keeping the shape.
    pub fn clear_terrain(&mut self)
        requires
            old(self).wf(),
        ensures
            final(self).wf(),
            final(self).search_current(),
            !final(self).stale_spec(),
            final(self).dom_spec() == old(self).dom_spec(),
            final(self).start_spec() == old(self).start_spec(),
            final(self).goal_spec() == old(self).goal_spec(),
            final(self).route_spec().len() == 0,
            final(self).solver_spec().expanded_spec() == 0,
            final(self).at_step(0),
            final(self).diagonals_spec() == old(self).diagonals_spec(),
            final(self).algo_spec() == old(self).algo_spec(),
            forall|i: int| 0 <= i < old(self).dom_spec().size() ==> #[trigger] final(self).terrain_spec()[i] == if old(self).dom_spec().exists@[i] == 1 {
                1u8
            } else {
                old(self).terrain_spec()[i]
            },
    {
        let total = self.dom.total();
        let ghost t0 = self.terrain@;
        let mut terrain = self.terrain.clone();
        let mut i: usize = 0;
        while i < total
            invariant
                total == self.dom.size(),
                terrain@.len() == total,
                t0.len() == total,
                self.dom.exists@.len() == total,
                i <= total,
                forall|j: int| 0 <= j < total ==> #[trigger] terrain@[j] == if j < i && self.dom.exists@[j] == 1 {
                    1u8
                } else {
                    t0[j]
                },
            decreases total - i,
        {
            if self.dom.exists[i] == 1 {
                terrain.set(i, 1);
            }
            i += 1;
        }
        self.terrain = terrain;
        self.route = Vec::new();
        self.route_marks = Vec::new();
        self.invalidate();
        proof {
            assert forall|i: int| 0 <= i < self.dom.size() implies #[trigger] valid_byte(self.terrain@[i]) by {
                assert(valid_byte(t0[i]));
            }
        }
        self.reset_search();
    }
}

} // verus!

verus! {

impl World {
    pub fn nx(&self) -> (r: u32)
        requires
            self.wf(),
        ensures
            r == self.dom_spec().nx,
    {
        self.dom.nx as u32
    }

    pub fn ny(&self) -> (r: u32)
        requires
            self.wf(),
        ensures
            r == self.dom_spec().ny,
    {
        self.dom.ny as u32
    }

    pub fn nz(&self) -> (r: u32)
        requires
            self.wf(),
        ensures
            r == self.dom_spec().nz,
    {
        self.dom.nz as u32
    }

    /// Number of cells in the buffers (`nx*ny*nz`, void cells included).
    pub fn len(&self) -> (r: u32)
        requires
            self.wf(),
        ensures
            r == self.dom_spec().size(),
    {
        self.dom.total() as u32
    }

    pub fn is_empty(&self) -> (r: bool)
        requires
            self.wf(),
        ensures
            r == (self.dom_spec().size() == 0),
    {
        self.dom.total() == 0
    }

    /// Number of cells that actually exist (outside the void mask).
    pub fn cell_count(&self) -> (r: u32)
        ensures
            r == self.dom_spec().count,
    {
        self.dom.count
    }

    /// The domain the world lives in.
    pub fn dom(&self) -> (r: &Domain)
        ensures
            *r == self.dom_spec(),
    {
        &self.dom
    }

    pub fn preset(&self) -> (r: String)
        ensures
            r@ == self.dom_spec().preset.name(),
    {
        String::from_str(self.dom.preset.as_str())
    }

    pub fn seed(&self) -> (r: u32)
        ensures
            r == self.seed_spec(),
    {
        self.seed
    }

    /// Wrap flags per axis, 1 where the axis wraps.
    pub fn wraps(&self) -> (r: Vec<u8>)
        requires
            self.wf(),
        ensures
            r@.len() == 3,
            forall|a: int| 0 <= a < 3 ==> #[trigger] r@[a] == if self.dom_spec().wrap@[a] {
                1u8
            } else {
                0u8
            },
    {
        let mut r: Vec<u8> = Vec::new();
        let mut a: usize = 0;
        while a < 3
            invariant
                a <= 3,
                r@.len() == a,
                forall|b: int| 0 <= b < a ==> #[trigger] r@[b] == if self.dom.wrap@[b] {
                    1u8
                } else {
                    0u8
                },
            decreases 3 - a,
        {
            r.push(if self.dom.wrap[a] { 1 } else { 0 });
            a += 1;
        }
        r
    }

    /// The existence mask, one byte per cell.
    pub fn mask(&self) -> (r: &[u8])
        ensures
            r@ == self.dom_spec().exists@,
    {
        self.dom.exists.as_slice()
    }

    /// The terrain bytes, one per cell.
    pub fn terrain(&self) -> (r: &[u8])
        ensures
            r@ == self.terrain_spec(),
    {
        self.terrain.as_slice()
    }

    /// Per-cell search state: FREE, OBST, OPEN, CLOSED or PATH.
    pub fn states(&self) -> (r: &[u8])
        ensures
            r@ == self.solver_spec().cells_spec(),
    {
        self.solver.cells()
    }

    pub fn start_cell(&self) -> (r: u32)
        ensures
            r == self.start_spec(),
    {
        self.start
    }

    pub fn goal_cell(&self) -> (r: u32)
        ensures
            r == self.goal_spec(),
    {
        self.goal
    }

    pub fn algo(&self) -> (r: u8)
        ensures
            r == self.algo_spec(),
    {
        self.algo
    }

    pub fn diagonals(&self) -> (r: bool)
        ensures
            r == self.diagonals_spec(),
    {
        self.diagonals
    }

    /// Switch algorithm (ids past the last are taken as the last); a change
    /// restarts the search and keeps the world.
    pub fn set_algo(&mut self, algo: u8)
        requires
            old(self).wf(),
        ensures
            final(self).wf(),
            final(self).algo_spec() == if algo > ALGO_DFS { ALGO_DFS } else { algo },
            final(self).dom_spec() == old(self).dom_spec(),
            final(self).terrain_spec() == old(self).terrain_spec(),
            final(self).start_spec() == old(self).start_spec(),
            final(self).goal_spec() == old(self).goal_spec(),
            final(self).diagonals_spec() == old(self).diagonals_spec(),
            final(self).route_spec() == old(self).route_spec(),
            old(self).algo_spec() != final(self).algo_spec() ==> final(self).search_current() && !final(self).stale_spec()
                && final(self).solver_spec().expanded_spec() == 0 && final(self).at_step(0),
            old(self).algo_spec() == final(self).algo_spec() ==> *final(self) == *old(self),
    {
        let algo = if algo > ALGO_DFS { ALGO_DFS } else { algo };
        if algo == self.algo {
            return;
        }
        self.algo = algo;
        self.total_steps = None;
        self.reset_search();
    }

    /// Turn diagonal moves on or off; a change voids the drawn route and
    /// restarts the search.
    pub fn set_diagonals(&mut self, on: bool)
        requires
            old(self).wf(),
        ensures
            final(self).wf(),
            final(self).diagonals_spec() == on,
            final(self).dom_spec() == old(self).dom_spec(),
            final(self).terrain_spec() == old(self).terrain_spec(),
            final(self).start_spec() == old(self).start_spec(),
            final(self).goal_spec() == old(self).goal_spec(),
            final(self).algo_spec() == old(self).algo_spec(),
            old(self).diagonals_spec() != on ==> final(self).search_current() && !final(self).stale_spec()
                && final(self).solver_spec().expanded_spec() == 0 && final(self).route_spec().len() == 0
                && final(self).at_step(0),
            old(self).diagonals_spec() == on ==> *final(self) == *old(self),
    {
        if on == self.diagonals {
            return;
        }
        self.diagonals = on;
        self.route = Vec::new();
        self.route_marks = Vec::new();
        self.invalidate();
        self.reset_search();
    }

    /// Advance the search by up to `steps` expansions.
    pub fn advance(&mut self, steps: u32)
        requires
            old(self).wf(),
        ensures
            final(self).wf(),
            final(self).dom_spec() == old(self).dom_spec(),
            final(self).terrain_spec() == old(self).terrain_spec(),
            final(self).start_spec() == old(self).start_spec(),
            final(self).goal_spec() == old(self).goal_spec(),
            final(self).diagonals_spec() == old(self).diagonals_spec(),
            final(self).algo_spec() == old(self).algo_spec(),
            final(self).route_spec() == old(self).route_spec(),
            final(self).stale_spec() == old(self).stale_spec(),
            old(self).search_current() ==> final(self).search_current(),
            old(self).solver_spec().done_spec() ==> final(self).solver_spec() == old(self).solver_spec(),
            old(self).solver_spec().expanded_spec() <= final(self).solver_spec().expanded_spec()
                <= old(self).solver_spec().expanded_spec() + steps,
            !final(self).solver_spec().done_spec() ==> final(self).solver_spec().expanded_spec()
                == old(self).solver_spec().expanded_spec() + steps,
            forall|k: nat| #[trigger] old(self).at_step(k) ==> final(self).at_step(k + steps as nat),
    {
        self.solver.step_many(&self.dom, &self.searched, steps);
        proof {
            assert(self.solver.same_setup(&old(self).solver));
            assert forall|k: nat| #[trigger] old(self).at_step(k) implies self.at_step(k + steps as nat) by {
                let t = self.terrain@;
                lemma_steps_add(
                    crate::solver::fresh_state(self.dom, t, self.start, self.goal, self.diagonals, self.algo),
                    self.dom,
                    endpoints_freed(t, self.start as int, self.goal as int),
                    self.start,
                    self.goal,
                    self.diagonals,
                    self.algo,
                    k,
                    steps as nat,
                );
            }
        }
    }

    /// Jump to an exact expansion count by replaying the search from zero.
    pub fn seek(&mut self, step: u32)
        requires
            old(self).wf(),
        ensures
            final(self).wf(),
            final(self).search_current(),
            !final(self).stale_spec(),
            final(self).dom_spec() == old(self).dom_spec(),
            final(self).terrain_spec() == old(self).terrain_spec(),
            final(self).start_spec() == old(self).start_spec(),
            final(self).goal_spec() == old(self).goal_spec(),
            final(self).diagonals_spec() == old(self).diagonals_spec(),
            final(self).algo_spec() == old(self).algo_spec(),
            final(self).route_spec() == old(self).route_spec(),
            final(self).solver_spec().expanded_spec() <= step,
            !final(self).solver_spec().done_spec() ==> final(self).solver_spec().expanded_spec() == step,
            final(self).at_step(step as nat),
    {
        self.reset_search();
        self.advance(step);
        proof {
            assert(self.at_step(0nat + step as nat));
        }
    }

    /// Rewind by `steps` expansions (at least one), replaying from zero.
    pub fn step_back(&mut self, steps: u32)
        requires
            old(self).wf(),
        ensures
            final(self).wf(),
            final(self).search_current(),
            final(self).dom_spec() == old(self).dom_spec(),
            final(self).terrain_spec() == old(self).terrain_spec(),
            final(self).route_spec() == old(self).route_spec(),
            final(self).start_spec() == old(self).start_spec(),
            final(self).goal_spec() == old(self).goal_spec(),
            final(self).diagonals_spec() == old(self).diagonals_spec(),
            final(self).algo_spec() == old(self).algo_spec(),
            !final(self).stale_spec(),
            final(self).at_step(
                crate::solver::sat_sub(old(self).solver_spec().expanded_spec(), if steps < 1 { 1 } else { steps as int }) as nat,
            ),
            final(self).solver_spec().expanded_spec() <= crate::solver::sat_sub(
                old(self).solver_spec().expanded_spec(),
                if steps < 1 { 1 } else { steps as int },
            ),
            !final(self).solver_spec().done_spec() ==> final(self).solver_spec().expanded_spec() == crate::solver::sat_sub(
                old(self).solver_spec().expanded_spec(),
                if steps < 1 { 1 } else { steps as int },
            ),
    {
        let back = if steps < 1 { 1 } else { steps };
        let target = self.solver.expanded().saturating_sub(back);
        self.seek(target);
    }

    /// Expansions a completed search of the present world takes, computed
    /// once per world state and cached.
    pub fn total_steps(&mut self) -> (n: u32)
        requires
            old(self).wf(),
        ensures
            final(self).wf(),
            final(self).dom_spec() == old(self).dom_spec(),
            final(self).terrain_spec() == old(self).terrain_spec(),
            final(self).start_spec() == old(self).start_spec(),
            final(self).goal_spec() == old(self).goal_spec(),
            final(self).diagonals_spec() == old(self).diagonals_spec(),
            final(self).algo_spec() == old(self).algo_spec(),
            final(self).route_spec() == old(self).route_spec(),
            final(self).solver_spec() == old(self).solver_spec(),
            final(self).stale_spec() == old(self).stale_spec(),
            final(self).search_current() == old(self).search_current(),
            forall|k: nat| #[trigger] old(self).at_step(k) ==> final(self).at_step(k),
            run_length(final(self).dom_spec(), final(self).terrain_spec(), final(self).start_spec(), final(self).goal_spec(),
                final(self).diagonals_spec(), final(self).algo_spec(), n),
    {
        if let Some(n) = self.total_steps {
            return n;
        }
        let mut s = Solver::new(&self.dom, &self.terrain, self.start, self.goal, self.diagonals, self.algo);
        s.run(&self.dom, &self.terrain);
        let n = s.expanded();
        proof {
            let t = self.terrain@;
            let sv = crate::solver::fresh_state(self.dom, t, self.start, self.goal, self.diagonals, self.algo);
            s.lemma_state_parts();
            assert(t[self.start as int] != T_VOID);
            assert(t[self.goal as int] != T_VOID);
            lemma_finish_count(sv, self.dom, endpoints_freed(t, self.start as int, self.goal as int), self.start, self.goal,
                self.diagonals, self.algo, run_budget(self.dom));
        }
        self.total_steps = Some(n);
        n
    }

    pub fn expanded(&self) -> (r: u32)
        ensures
            r == self.solver_spec().expanded_spec(),
    {
        self.solver.expanded()
    }

    pub fn frontier(&self) -> (r: u32)
        ensures
            r == self.solver_spec().frontier_spec(),
    {
        self.solver.frontier()
    }

    pub fn is_done(&self) -> (r: bool)
        ensures
            r == self.solver_spec().done_spec(),
    {
        self.solver.is_done()
    }

    pub fn found(&self) -> (r: bool)
        ensures
            r == self.solver_spec().found_spec(),
    {
        self.solver.found()
    }

    /// Weighted cost of the path found, in units of `COST_ONE`, or `None`
    /// before there is one.
    pub fn cost(&self) -> (r: Option<u128>)
        ensures
            r == if self.solver_spec().found_spec() {
                Some(self.solver_spec().cost_spec() as u128)
            } else {
                None::<u128>
            },
    {
        self.solver.cost()
    }

    pub fn path(&self) -> (r: Vec<u32>)
        ensures
            r@ == self.solver_spec().path_spec(),
    {
        self.solver.path_vec()
    }

    /// True when an edit has invalidated the displayed search.
    pub fn is_stale(&self) -> (r: bool)
        ensures
            r == self.stale_spec(),
    {
        self.stale
    }

    /// The live search.
    pub fn solver(&self) -> (r: &Solver)
        ensures
            *r == self.solver_spec(),
    {
        &self.solver
    }
}

} // verus!

verus! {

/// `r` lists, in increasing order, exactly the cells below `n` where `p`
/// holds.
pub open spec fn lists(r: Seq<u32>, n: int, p: spec_fn(int) -> bool) -> bool {
    &&& forall|k: int| 0 <= k < r.len() ==> #[trigger] r[k] < n && p(r[k] as int)
    &&& forall|k1: int, k2: int| 0 <= k1 < k2 < r.len() ==> #[trigger] r[k1] < #[trigger] r[k2]
    &&& forall|i: int| 0 <= i < n && #[trigger] p(i) ==> r.contains(i as u32)
}

/// The six face directions.
pub open spec fn face(f: int) -> (int, int, int) {
    if f == 0 {
        (1, 0, 0)
    } else if f == 1 {
        (-1, 0, 0)
    } else if f == 2 {
        (0, 1, 0)
    } else if f == 3 {
        (0, -1, 0)
    } else if f == 4 {
        (0, 0, 1)
    } else {
        (0, 0, -1)
    }
}

/// Face `f` of cell `i` is exposed: off the domain, or onto a cell that is
/// not a wall.
pub open spec fn face_exposed(dom: Domain, terrain: Seq<u8>, i: int, f: int) -> bool {
    match dom.neighbor_spec(i, face(f).0, face(f).1, face(f).2) {
        None => true,
        Some(j) => terrain[j] != T_OBST,
    }
}

/// A wall with at least one exposed face.
pub open spec fn surface_wall(dom: Domain, terrain: Seq<u8>, i: int) -> bool {
    terrain[i] == T_OBST && exists|f: int| 0 <= f < 6 && #[trigger] face_exposed(dom, terrain, i, f)
}

/// What painting `value` writes: walls stay walls, other bytes are clamped
/// to a weight.
pub open spec fn painted(value: u8) -> u8 {
    if value == T_OBST {
        T_OBST
    } else if value < 1 {
        1
    } else if value > W_MAX {
        W_MAX
    } else {
        value
    }
}

/// Where a build click lands: the open cell in front of the first wall the
/// ray meets, else the plane crossing when it is an existing open cell,
/// else the last open cell the ray passed.
pub open spec fn build_cell(dom: Domain, terrain: Seq<u8>, hit: Hit, plane: Option<u32>) -> i32 {
    if hit.solid >= 0 && hit.free >= 0 {
        hit.free
    } else {
        match plane {
            Some(c) => if dom.cell_exists(c as int) && terrain[c as int] != T_OBST {
                c as i32
            } else {
                hit.free
            },
            None => hit.free,
        }
    }
}

/// A build click that met a stopping cell with an open cell in front of it
/// builds on that open cell, against the face pointed at, never on the
/// stopping cell itself (the two are different cells of the ray).
pub proof fn lemma_build_in_front(dom: Domain, terrain: Seq<u8>, hit: Hit, plane: Option<u32>)
    requires
        hit.solid >= 0,
        hit.free >= 0,
    ensures
        build_cell(dom, terrain, hit, plane) == hit.free,
        hit.free != hit.solid ==> build_cell(dom, terrain, hit, plane) != hit.solid,
{
}

/// A build click whose ray met no wall in front of an open cell builds in
/// open space: on the cell where the ray crosses the working plane when
/// that cell exists and is not a wall, else on the last open cell the ray
/// passed, if any.
pub proof fn lemma_build_in_open_space(dom: Domain, terrain: Seq<u8>, hit: Hit, plane: Option<u32>)
    requires
        dom.wf(),
        !(hit.solid >= 0 && hit.free >= 0),
    ensures
        plane is Some && dom.cell_exists(plane.unwrap() as int) && terrain[plane.unwrap() as int] != T_OBST
            ==> build_cell(dom, terrain, hit, plane) == plane.unwrap(),
        !(plane is Some && dom.cell_exists(plane.unwrap() as int) && terrain[plane.unwrap() as int] != T_OBST)
            ==> build_cell(dom, terrain, hit, plane) == hit.free,
{
}

impl World {
    /// Move the start, snapped to the nearest existing, unblocked cell that
    /// is not the goal; returns the cell used, or `-1`.
    pub fn set_start(&mut self, cell: u32) -> (r: i32)
        requires
            old(self).wf(),
        ensures
            final(self).wf(),
            snapped(old(self).dom_spec(), old(self).terrain_spec(), cell, old(self).goal_spec() as i32, r),
            final(self).start_spec() == if r >= 0 { r as u32 } else { old(self).start_spec() },
            final(self).goal_spec() == old(self).goal_spec(),
            final(self).dom_spec() == old(self).dom_spec(),
            final(self).terrain_spec() == old(self).terrain_spec(),
            final(self).start_spec() != old(self).start_spec() ==> final(self).route_spec().len() == 0
                && final(self).stale_spec(),
            final(self).start_spec() == old(self).start_spec() ==> *final(self) == *old(self),
    {
        self.set_endpoint(cell, true)
    }

    /// Move the goal, snapped to the nearest existing, unblocked cell that
    /// is not the start; returns the cell used, or `-1`.
    pub fn set_goal(&mut self, cell: u32) -> (r: i32)
        requires
            old(self).wf(),
        ensures
            final(self).wf(),
            snapped(old(self).dom_spec(), old(self).terrain_spec(), cell, old(self).start_spec() as i32, r),
            final(self).goal_spec() == if r >= 0 { r as u32 } else { old(self).goal_spec() },
            final(self).start_spec() == old(self).start_spec(),
            final(self).dom_spec() == old(self).dom_spec(),
            final(self).terrain_spec() == old(self).terrain_spec(),
            final(self).goal_spec() != old(self).goal_spec() ==> final(self).route_spec().len() == 0
                && final(self).stale_spec(),
            final(self).goal_spec() == old(self).goal_spec() ==> *final(self) == *old(self),
    {
        self.set_endpoint(cell, false)
    }

    fn set_endpoint(&mut self, cell: u32, is_start: bool) -> (r: i32)
        requires
            old(self).wf(),
        ensures
            final(self).wf(),
            snapped(
                old(self).dom,
                old(self).terrain@,
                cell,
                (if is_start { old(self).goal } else { old(self).start }) as i32,
                r,
            ),
            is_start ==> final(self).start == if r >= 0 { r as u32 } else { old(self).start },
            !is_start ==> final(self).goal == if r >= 0 { r as u32 } else { old(self).goal },
            is_start ==> final(self).goal == old(self).goal,
            !is_start ==> final(self).start == old(self).start,
            final(self).dom == old(self).dom,
            final(self).terrain == old(self).terrain,
            (final(self).start != old(self).start || final(self).goal != old(self).goal) ==> final(self).route@.len() == 0
                && final(self).stale,
            (final(self).start == old(self).start && final(self).goal == old(self).goal) ==> *final(self) == *old(self),
    {
        let avoid = (if is_start { self.goal } else { self.start }) as i32;
        let snapped = crate::pick::snap(&self.dom, &self.terrain, cell, avoid);
        if snapped < 0 {
            return -1;
        }
        let s = snapped as u32;
        let cur = if is_start { self.start } else { self.goal };
        if cur == s {
            return snapped;
        }
        if is_start {
            self.start = s;
        } else {
            self.goal = s;
        }
        self.route = Vec::new();
        self.route_marks = Vec::new();
        self.invalidate();
        snapped
    }

    /// Every wall cell, in index order.
    pub fn obstacle_cells(&self) -> (r: Vec<u32>)
        requires
            self.wf(),
        ensures
            lists(r@, self.dom_spec().size(), |i: int| self.terrain_spec()[i] == T_OBST),
    {
        let total = self.dom.total();
        let ghost p = |i: int| self.terrain@[i] == T_OBST;
        let mut r: Vec<u32> = Vec::new();
        let mut i: usize = 0;
        while i < total
            invariant
                total == self.dom.size(),
                self.terrain@.len() == total,
                total <= i32::MAX,
                i <= total,
                p == (|i: int| self.terrain@[i] == T_OBST),
                lists(r@, i as int, p),
            decreases total - i,
        {
            let ghost r0 = r@;
            if self.terrain[i] == T_OBST {
                r.push(i as u32);
                proof {
                    assert(r@[r0.len() as int] == i as u32);
                    assert forall|j: int| 0 <= j < i + 1 && #[trigger] p(j) implies r@.contains(j as u32) by {
                        if j < i {
                            let k = choose|k: int| 0 <= k < r0.len() && r0[k] == j as u32;
                            assert(r@[k] == j as u32);
                        }
                    }
                }
            } else {
                proof {
                    assert forall|j: int| 0 <= j < i + 1 && #[trigger] p(j) implies r@.contains(j as u32) by {}
                }
            }
            i += 1;
        }
        r
    }

    /// Cells carrying a traversal weight above 1, in index order.
    pub fn weighted_cells(&self) -> (r: Vec<u32>)
        requires
            self.wf(),
        ensures
            lists(r@, self.dom_spec().size(), |i: int| 2 <= self.terrain_spec()[i] <= W_MAX),
    {
        let total = self.dom.total();
        let ghost p = |i: int| 2 <= self.terrain@[i] <= W_MAX;
        let mut r: Vec<u32> = Vec::new();
        let mut i: usize = 0;
        while i < total
            invariant
                total == self.dom.size(),
                self.terrain@.len() == total,
                total <= i32::MAX,
                i <= total,
                p == (|i: int| 2 <= self.terrain@[i] <= W_MAX),
                lists(r@, i as int, p),
            decreases total - i,
        {
            let ghost r0 = r@;
            let t = self.terrain[i];
            if 2 <= t && t <= W_MAX {
                r.push(i as u32);
                proof {
                    assert(r@[r0.len() as int] == i as u32);
                    assert forall|j: int| 0 <= j < i + 1 && #[trigger] p(j) implies r@.contains(j as u32) by {
                        if j < i {
                            let k = choose|k: int| 0 <= k < r0.len() && r0[k] == j as u32;
                            assert(r@[k] == j as u32);
                        }
                    }
                }
            } else {
                proof {
                    assert forall|j: int| 0 <= j < i + 1 && #[trigger] p(j) implies r@.contains(j as u32) by {}
                }
            }
            i += 1;
        }
        r
    }

    /// Whether a wall cell has an exposed face.
    fn exposed(&self, i: u32) -> (b: bool)
        requires
            self.wf(),
            i < self.dom.size(),
        ensures
            b == exists|f: int| 0 <= f < 6 && #[trigger] face_exposed(self.dom, self.terrain@, i as int, f),
    {
        let mut f: i32 = 0;
        while f < 6
            invariant
                self.wf(),
                i < self.dom.size(),
                0 <= f <= 6,
                forall|g: int| 0 <= g < f ==> !#[trigger] face_exposed(self.dom, self.terrain@, i as int, g),
            decreases 6 - f,
        {
            let (dx, dy, dz) = if f == 0 {
                (1, 0, 0)
            } else if f == 1 {
                (-1, 0, 0)
            } else if f == 2 {
                (0, 1, 0)
            } else if f == 3 {
                (0, -1, 0)
            } else if f == 4 {
                (0, 0, 1)
            } else {
                (0, 0, -1)
            };
            let open = match self.dom.neighbor(i, dx, dy, dz) {
                None => true,
                Some(j) => self.terrain[j as usize] != T_OBST,
            };
            if open {
                assert(face_exposed(self.dom, self.terrain@, i as int, f as int));
                return true;
            }
            f += 1;
        }
        false
    }

    /// Wall cells with at least one exposed face, in index order.
    pub fn surface_obstacle_cells(&self) -> (r: Vec<u32>)
        requires
            self.wf(),
        ensures
            lists(r@, self.dom_spec().size(), |i: int| surface_wall(self.dom_spec(), self.terrain_spec(), i)),
    {
        let total = self.dom.total();
        let ghost p = |i: int| surface_wall(self.dom, self.terrain@, i);
        let mut r: Vec<u32> = Vec::new();
        let mut i: usize = 0;
        while i < total
            invariant
                self.wf(),
                total == self.dom.size(),
                self.terrain@.len() == total,
                total <= i32::MAX,
                i <= total,
                p == (|i: int| surface_wall(self.dom, self.terrain@, i)),
                lists(r@, i as int, p),
            decreases total - i,
        {
            let ghost r0 = r@;
            if self.terrain[i] == T_OBST && self.exposed(i as u32) {
                r.push(i as u32);
                proof {
                    assert(r@[r0.len() as int] == i as u32);
                    assert forall|j: int| 0 <= j < i + 1 && #[trigger] p(j) implies r@.contains(j as u32) by {
                        if j < i {
                            let k = choose|k: int| 0 <= k < r0.len() && r0[k] == j as u32;
                            assert(r@[k] == j as u32);
                        }
                    }
                }
            } else {
                proof {
                    assert forall|j: int| 0 <= j < i + 1 && #[trigger] p(j) implies r@.contains(j as u32) by {}
                }
            }
            i += 1;
        }
        r
    }

    /// The terrain byte of a cell; void past the end of the buffer.
    pub fn terrain_at(&self, cell: u32) -> (t: u8)
        requires
            self.wf(),
        ensures
            t == if cell < self.dom_spec().size() { self.terrain_spec()[cell as int] } else { T_VOID },
    {
        if (cell as usize) < self.terrain.len() {
            self.terrain[cell as usize]
        } else {
            T_VOID
        }
    }

    /// Set one cell's terrain byte. Refuses void cells and refuses to wall in
    /// an endpoint. Returns true when something actually changed; a change
    /// marks the search stale without restarting it.
    pub fn paint(&mut self, cell: u32, value: u8) -> (changed: bool)
        requires
            old(self).wf(),
        ensures
            final(self).wf(),
            changed == (old(self).dom_spec().cell_exists(cell as int) && !(value == T_OBST && (cell == old(self).start_spec()
                || cell == old(self).goal_spec())) && old(self).terrain_spec()[cell as int] != painted(value)),
            changed ==> final(self).terrain_spec() == old(self).terrain_spec().update(cell as int, painted(value))
                && final(self).stale_spec() && final(self).solver_spec() == old(self).solver_spec()
                && final(self).start_spec() == old(self).start_spec() && final(self).goal_spec() == old(self).goal_spec()
                && final(self).dom_spec() == old(self).dom_spec() && final(self).route_spec() == old(self).route_spec(),
            !changed ==> *final(self) == *old(self),
    {
        if !self.dom.exists_at(cell) {
            return false;
        }
        let value = if value == T_OBST {
            if cell == self.start || cell == self.goal {
                return false;
            }
            T_OBST
        } else if value < 1 {
            1
        } else if value > W_MAX {
            W_MAX
        } else {
            value
        };
        if self.terrain[cell as usize] == value {
            return false;
        }
        self.terrain.set(cell as usize, value);
        self.stale = true;
        self.invalidate_caches();
        proof {
            assert forall|i: int| 0 <= i < self.dom.size() implies #[trigger] valid_byte(self.terrain@[i]) by {
                if i != cell {
                    assert(valid_byte(old(self).terrain@[i]));
                }
            }
        }
        true
    }

    pub fn anchor(&self) -> (r: u32)
        ensures
            r == self.anchor_spec(),
    {
        self.anchor
    }

    /// Move the build-plane anchor to an existing cell; other cells are
    /// ignored.
    pub fn set_anchor(&mut self, cell: u32)
        requires
            old(self).wf(),
        ensures
            final(self).wf(),
            final(self).anchor_spec() == if old(self).dom_spec().cell_exists(cell as int) {
                cell
            } else {
                old(self).anchor_spec()
            },
            final(self).terrain_spec() == old(self).terrain_spec(),
            final(self).dom_spec() == old(self).dom_spec(),
            final(self).solver_spec() == old(self).solver_spec(),
    {
        if self.dom.exists_at(cell) {
            self.anchor = cell;
        }
    }

    /// Move the anchor to the cell a nudge of the build plane lands in, when
    /// it lands in an existing one; returns the anchor.
    pub fn nudge_to(&mut self, landed: Option<u32>) -> (r: u32)
        requires
            old(self).wf(),
        ensures
            final(self).wf(),
            r == final(self).anchor_spec(),
            final(self).anchor_spec() == match landed {
                Some(c) => if old(self).dom_spec().cell_exists(c as int) {
                    c
                } else {
                    old(self).anchor_spec()
                },
                None => old(self).anchor_spec(),
            },
            final(self).terrain_spec() == old(self).terrain_spec(),
            final(self).dom_spec() == old(self).dom_spec(),
            final(self).solver_spec() == old(self).solver_spec(),
    {
        if let Some(c) = landed {
            self.set_anchor(c);
        }
        self.anchor
    }

    /// The cell a build click resolves to, from the ray's hit and the cell
    /// where the ray crosses the plane through the anchor.
    pub fn build_target(&self, hit: Hit, plane: Option<u32>) -> (r: i32)
        requires
            self.wf(),
        ensures
            r == build_cell(self.dom_spec(), self.terrain_spec(), hit, plane),
            hit.solid >= 0 && hit.free >= 0 ==> r == hit.free,
    {
        if hit.solid >= 0 && hit.free >= 0 {
            return hit.free;
        }
        match plane {
            Some(c) => {
                if self.dom.exists_at(c) && self.terrain[c as usize] != T_OBST {
                    c as i32
                } else {
                    hit.free
                }
            },
            None => hit.free,
        }
    }

    /// Where a dragged endpoint lands, from the ray's hit and the cell where
    /// the ray crosses the plane through that endpoint: the same resolution
    /// as a build click, then snapped onto a legal cell away from the other
    /// endpoint.
    pub fn endpoint_target(&self, hit: Hit, plane: Option<u32>, is_start: bool) -> (r: i32)
        requires
            self.wf(),
        ensures
            ({
                let raw: Option<u32> = if hit.solid >= 0 && hit.free >= 0 {
                    Some(hit.free as u32)
                } else {
                    match plane {
                        Some(c) => Some(c),
                        None => if hit.free >= 0 {
                            Some(hit.free as u32)
                        } else {
                            None
                        },
                    }
                };
                let avoid = (if is_start { self.goal_spec() } else { self.start_spec() }) as i32;
                match raw {
                    Some(c) => snapped(self.dom_spec(), self.terrain_spec(), c, avoid, r),
                    None => r == -1,
                }
            }),
    {
        let raw = if hit.solid >= 0 && hit.free >= 0 {
            hit.free as u32
        } else {
            match plane {
                Some(c) => c,
                None => {
                    if hit.free >= 0 {
                        hit.free as u32
                    } else {
                        return -1;
                    }
                },
            }
        };
        let avoid = (if is_start { self.goal } else { self.start }) as i32;
        crate::pick::snap(&self.dom, &self.terrain, raw, avoid)
    }

    /// Both halves of a brush gesture, `[cell_to_clear, cell_to_paint]`.
    pub fn edit_targets(&self, hit: Hit, plane: Option<u32>) -> (r: Vec<i32>)
        requires
            self.wf(),
        ensures
            r@ == seq![hit.solid, build_cell(self.dom_spec(), self.terrain_spec(), hit, plane)],
            r@.len() == 2 && r@[0] == hit.solid,
            hit.solid >= 0 && hit.free >= 0 ==> r@[1] == hit.free,
    {
        let build = self.build_target(hit, plane);
        let r = vec![hit.solid, build];
        proof {
            assert(r@ =~= seq![hit.solid, build]);
        }
        r
    }

    /// Any existing cell under the ray: the first wall, else the last open
    /// cell.
    pub fn any_target(hit: Hit) -> (r: i32)
        ensures
            r == if hit.solid >= 0 { hit.solid } else { hit.free },
    {
        if hit.solid >= 0 {
            hit.solid
        } else {
            hit.free
        }
    }
}

} // verus!

verus! {

/// The route a new leg extends: the drawn route, or just the start when
/// nothing is drawn yet.
pub open spec fn route_base(route: Seq<u32>, start: u32) -> Seq<u32> {
    if route.len() == 0 {
        seq![start]
    } else {
        route
    }
}

/// The route has left the start and reached the goal.
pub open spec fn complete(route: Seq<u32>, goal: u32) -> bool {
    route.len() > 1 && route.last() == goal
}

/// Leg marks with those past the end of a route of length `n` dropped from
/// the top.
pub open spec fn trim_marks(marks: Seq<u32>, n: int) -> Seq<u32>
    decreases marks.len(),
{
    if marks.len() > 0 && marks.last() >= n {
        trim_marks(marks.drop_last(), n)
    } else {
        marks
    }
}

/// Index of the first occurrence of `c` in `s`.
pub open spec fn first_index(s: Seq<u32>, c: u32) -> int {
    choose|i: int| 0 <= i < s.len() && s[i] == c && forall|j: int| 0 <= j < i ==> s[j] != c
}

/// A walk from `from` to `to` that no walk between them beats in moves.
pub open spec fn fewest_hop_leg(dom: Domain, terrain: Seq<u8>, diagonals: bool, leg: Seq<u32>, from: u32, to: u32) -> bool {
    &&& is_walk(dom, terrain, leg, diagonals)
    &&& leg[0] == from
    &&& leg.last() == to
    &&& forall|w: Seq<u32>|
        #[trigger] is_walk(dom, terrain, w, diagonals) && w[0] == from && w.last() == to ==> leg.len() <= w.len()
}

/// What extending a drawn route to `cell` gives: `old` is the route before,
/// `base` the route the extension starts from.
pub open spec fn appended(
    dom: Domain,
    terrain: Seq<u8>,
    diagonals: bool,
    base: Seq<u32>,
    old: Seq<u32>,
    goal: u32,
    cell: u32,
    r: i32,
    route: Seq<u32>,
) -> bool {
    let tail = base.last();
    if !dom.cell_exists(cell as int) || terrain[cell as int] == T_OBST {
        r == ROUTE_BLOCKED && route == old
    } else if complete(base, goal) || cell == tail {
        r == ROUTE_FINISHED && route == base
    } else if base.contains(cell) {
        r == ROUTE_OK && route == base.subrange(0, first_index(base, cell) + 1)
    } else {
        &&& r == ROUTE_OK || r == ROUTE_UNREACHABLE
        &&& r == ROUTE_UNREACHABLE <==> !(dom.cell_exists(tail as int) && terrain[tail as int] != T_OBST && reachable(
            dom,
            terrain,
            tail as int,
            cell as int,
            diagonals,
        ))
        &&& r == ROUTE_UNREACHABLE ==> route == base
        &&& r == ROUTE_OK ==> exists|leg: Seq<u32>|
            #[trigger] fewest_hop_leg(dom, terrain, diagonals, leg, tail, cell) && route == base + leg.subrange(
                1,
                leg.len() as int,
            )
    }
}

impl World {
    pub closed spec fn marks_spec(&self) -> Seq<u32> {
        self.route_marks@
    }

    pub fn route(&self) -> (r: Vec<u32>)
        ensures
            r@ == self.route_spec(),
    {
        self.route.clone()
    }

    pub fn route_len(&self) -> (r: u32)
        requires
            self.wf(),
            self.route_spec().len() <= u32::MAX,
        ensures
            r == self.route_spec().len(),
    {
        self.route.len() as u32
    }

    /// The route has left the start and reached the goal.
    pub fn route_complete(&self) -> (r: bool)
        ensures
            r == complete(self.route_spec(), self.goal_spec()),
    {
        self.route.len() > 1 && self.route[self.route.len() - 1] == self.goal
    }

    pub fn route_clear(&mut self)
        requires
            old(self).wf(),
        ensures
            final(self).wf(),
            final(self).route_spec().len() == 0,
            final(self).marks_spec().len() == 0,
            final(self).terrain_spec() == old(self).terrain_spec(),
            final(self).start_spec() == old(self).start_spec(),
            final(self).goal_spec() == old(self).goal_spec(),
            final(self).solver_spec() == old(self).solver_spec(),
    {
        self.route = Vec::new();
        self.route_marks = Vec::new();
    }

    /// Start a route at the start cell when none is drawn.
    pub fn route_begin(&mut self)
        requires
            old(self).wf(),
        ensures
            final(self).wf(),
            final(self).route_spec() == route_base(old(self).route_spec(), old(self).start_spec()),
            final(self).marks_spec() == old(self).marks_spec(),
            final(self).terrain_spec() == old(self).terrain_spec(),
            final(self).start_spec() == old(self).start_spec(),
            final(self).goal_spec() == old(self).goal_spec(),
            final(self).solver_spec() == old(self).solver_spec(),
    {
        if self.route.len() == 0 {
            self.route.push(self.start);
            proof {
                assert(self.route@ =~= seq![self.start]);
            }
        }
    }

    /// First position of `cell` in the route.
    fn route_position(&self, cell: u32) -> (r: Option<usize>)
        ensures
            r is None <==> !self.route@.contains(cell),
            r matches Some(i) ==> i == first_index(self.route@, cell) && i < self.route@.len(),
    {
        let mut i: usize = 0;
        while i < self.route.len()
            invariant
                i <= self.route@.len(),
                forall|j: int| 0 <= j < i ==> self.route@[j] != cell,
            decreases self.route@.len() - i,
        {
            if self.route[i] == cell {
                proof {
                    let k = first_index(self.route@, cell);
                    assert(0 <= k < self.route@.len() && self.route@[k] == cell && forall|j: int| 0 <= j < k ==> self.route@[j] != cell);
                    if k < i {
                        assert(false);
                    }
                    if k > i {
                        assert(self.route@[i as int] == cell);
                    }
                }
                return Some(i);
            }
            i += 1;
        }
        None
    }

    /// Keep only the leg marks inside a route of length `n`, in order.
    fn retain_marks(&mut self, n: usize)
        ensures
            final(self).route_marks@ == old(self).route_marks@.filter(|m: u32| (m as int) < n),
            final(self).route == old(self).route,
            final(self).dom == old(self).dom,
            final(self).terrain == old(self).terrain,
            final(self).searched == old(self).searched,
            final(self).solver == old(self).solver,
            final(self).start == old(self).start,
            final(self).goal == old(self).goal,
            final(self).diagonals == old(self).diagonals,
            final(self).algo == old(self).algo,
            final(self).anchor == old(self).anchor,
            final(self).optimal == old(self).optimal,
            final(self).total_steps == old(self).total_steps,
    {
        let ghost m0 = self.route_marks@;
        let mut kept: Vec<u32> = Vec::new();
        let mut i: usize = 0;
        while i < self.route_marks.len()
            invariant
                self.route_marks@ == m0,
                i <= m0.len(),
                kept@ == m0.subrange(0, i as int).filter(|m: u32| (m as int) < n),
            decreases m0.len() - i,
        {
            let m = self.route_marks[i];
            proof {
                reveal(Seq::filter);
                assert(m0.subrange(0, i + 1).drop_last() =~= m0.subrange(0, i as int));
                assert(m0.subrange(0, i + 1).last() == m);
            }
            if (m as usize) < n {
                kept.push(m);
            }
            i += 1;
        }
        proof {
            assert(m0.subrange(0, m0.len() as int) =~= m0);
        }
        self.route_marks = kept;
    }

    /// Extend the route to `cell`: a neighbour chains on directly, a distant
    /// cell is bridged with a shortest-hop leg, and a cell already on the
    /// route rewinds to it. Returns `ROUTE_OK` or the `ROUTE_*` reason the
    /// click was refused.
    pub fn route_append(&mut self, cell: u32) -> (r: i32)
        requires
            old(self).wf(),
            old(self).route_spec().len() < u32::MAX - old(self).dom_spec().size(),
        ensures
            final(self).wf(),
            final(self).terrain_spec() == old(self).terrain_spec(),
            final(self).dom_spec() == old(self).dom_spec(),
            final(self).start_spec() == old(self).start_spec(),
            final(self).goal_spec() == old(self).goal_spec(),
            final(self).solver_spec() == old(self).solver_spec(),
            appended(
                old(self).dom_spec(),
                old(self).terrain_spec(),
                old(self).diagonals_spec(),
                route_base(old(self).route_spec(), old(self).start_spec()),
                old(self).route_spec(),
                old(self).goal_spec(),
                cell,
                r,
                final(self).route_spec(),
            ),
            r == ROUTE_OK && !route_base(old(self).route_spec(), old(self).start_spec()).contains(cell)
                ==> final(self).marks_spec() == old(self).marks_spec().push(
                route_base(old(self).route_spec(), old(self).start_spec()).len() as u32,
            ),
            r == ROUTE_OK && route_base(old(self).route_spec(), old(self).start_spec()).contains(cell)
                ==> final(self).marks_spec() == old(self).marks_spec().filter(
                |m: u32| (m as int) < final(self).route_spec().len(),
            ),
            r != ROUTE_OK ==> final(self).marks_spec() == old(self).marks_spec(),
    {
        if !self.dom.exists_at(cell) || self.terrain[cell as usize] == T_OBST {
            return ROUTE_BLOCKED;
        }
        if self.route.len() == 0 {
            self.route.push(self.start);
            proof {
                assert(self.route@ =~= seq![self.start]);
            }
        }
        if self.route_complete() {
            return ROUTE_FINISHED;
        }
        let tail = self.route[self.route.len() - 1];
        if cell == tail {
            return ROUTE_FINISHED;
        }
        match self.route_position(cell) {
            Some(at) => {
                let ghost base = self.route@;
                self.route.truncate(at + 1);
                proof {
                    assert(self.route@ =~= base.subrange(0, first_index(base, cell) + 1));
                }
                let n = self.route.len();
                self.retain_marks(n);
                proof {
                    assert(base.contains(cell));
                }
                return ROUTE_OK;
            },
            None => {},
        }
        let mark = self.route.len() as u32;
        match crate::route::connect(&self.dom, &self.terrain, tail, cell, self.diagonals) {
            Some(leg) => {
                let ghost base = self.route@;
                let ghost size = self.dom.size();
                proof {
                    assert forall|i: int| 0 <= i < leg@.len() implies #[trigger] leg@[i] < size by {
                        if i > 0 {
                            assert(crate::route::edge(self.dom, self.terrain@, leg@[i - 1] as int, leg@[i] as int, self.diagonals));
                        }
                    }
                }
                let mut route = self.route.clone();
                let mut k: usize = 1;
                while k < leg.len()
                    invariant
                        1 <= k <= leg@.len(),
                        forall|i: int| 0 <= i < leg@.len() ==> #[trigger] leg@[i] < size,
                        forall|i: int| 0 <= i < base.len() ==> #[trigger] base[i] < size,
                        route@ == base + leg@.subrange(1, k as int),
                    decreases leg@.len() - k,
                {
                    route.push(leg[k]);
                    proof {
                        assert(leg@.subrange(1, k + 1) =~= leg@.subrange(1, k as int).push(leg@[k as int]));
                        assert(route@ =~= base + leg@.subrange(1, k + 1));
                    }
                    k += 1;
                }
                proof {
                    assert forall|i: int| 0 <= i < route@.len() implies #[trigger] route@[i] < size by {
                        if i >= base.len() {
                            assert(route@[i] == leg@[i - base.len() + 1]);
                        }
                    }
                }
                self.route = route;
                self.route_marks.push(mark);
                proof {
                    assert(leg@.subrange(1, leg@.len() as int) == leg@.subrange(1, k as int));
                    assert(crate::route::is_walk(self.dom, self.terrain@, leg@, self.diagonals));
                    assert(base == route_base(old(self).route@, old(self).start));
                    assert(leg@[0] == tail && leg@.last() == cell);
                    assert(self.route@ == base + leg@.subrange(1, leg@.len() as int));
                    assert(fewest_hop_leg(self.dom, self.terrain@, self.diagonals, leg@, tail, cell));
                    assert(exists|l: Seq<u32>|
                        #[trigger] fewest_hop_leg(self.dom, self.terrain@, self.diagonals, l, tail, cell)
                            && self.route@ == base + l.subrange(1, l.len() as int));
                }
                ROUTE_OK
            },
            None => {
                proof {
                    let dom = old(self).dom;
                    let terrain = old(self).terrain@;
                    assert(self.route@ == route_base(old(self).route@, old(self).start));
                    assert(!(dom.cell_exists(tail as int) && terrain[tail as int] != T_OBST && reachable(
                        dom,
                        terrain,
                        tail as int,
                        cell as int,
                        old(self).diagonals,
                    )));
                }
                ROUTE_UNREACHABLE
            },
        }
    }
}

} // verus!

verus! {

/// Undoing right after a leg was bridged onto the route takes the whole leg
/// off again, back to the route the leg was drawn from.
pub proof fn lemma_undo_drops_bridged_leg(base: Seq<u32>, leg: Seq<u32>, marks: Seq<u32>, start: u32)
    requires
        base.len() >= 1,
        leg.len() >= 2,
        base.len() <= u32::MAX,
    ensures
        undone(base + leg.subrange(1, leg.len() as int), marks.push(base.len() as u32), start) == base,
{
    let route = base + leg.subrange(1, leg.len() as int);
    let m = marks.push(base.len() as u32);
    assert(m.last() < route.len());
    assert(trim_marks(m, route.len() as int) == m);
    assert(route.subrange(0, base.len() as int) =~= base);
}

/// The route after an undo: back to the latest live leg mark, or one cell
/// shorter (never below the start) when no leg is marked.
pub open spec fn undone(route: Seq<u32>, marks: Seq<u32>, start: u32) -> Seq<u32> {
    let t = trim_marks(marks, route.len() as int);
    let cut = if t.len() > 0 {
        route.subrange(0, t.last() as int)
    } else if route.len() <= 1 {
        route
    } else {
        route.subrange(0, route.len() - 1)
    };
    if cut.len() == 0 {
        seq![start]
    } else {
        cut
    }
}

proof fn lemma_trim_marks(marks: Seq<u32>, n: int)
    ensures
        trim_marks(marks, n).len() <= marks.len(),
        trim_marks(marks, n) == marks.subrange(0, trim_marks(marks, n).len() as int),
        trim_marks(marks, n).len() > 0 ==> trim_marks(marks, n).last() < n,
        trim_marks(marks, n).len() < marks.len() ==> marks[trim_marks(marks, n).len() as int] >= n,
    decreases marks.len(),
{
    if marks.len() > 0 && marks.last() >= n {
        lemma_trim_marks(marks.drop_last(), n);
        let t = trim_marks(marks.drop_last(), n);
        assert(marks.drop_last().subrange(0, t.len() as int) =~= marks.subrange(0, t.len() as int));
        if t.len() == marks.drop_last().len() {
            assert(marks[t.len() as int] == marks.last());
        } else {
            assert(marks.drop_last()[t.len() as int] == marks[t.len() as int]);
        }
    } else {
        assert(marks.subrange(0, marks.len() as int) =~= marks);
    }
}

impl World {
    /// Drop the most recently added leg, or the last cell if the route was
    /// built one neighbour at a time; the start always stays.
    pub fn route_undo(&mut self)
        requires
            old(self).wf(),
        ensures
            final(self).wf(),
            final(self).route_spec() == undone(old(self).route_spec(), old(self).marks_spec(), old(self).start_spec()),
            final(self).terrain_spec() == old(self).terrain_spec(),
            final(self).start_spec() == old(self).start_spec(),
            final(self).goal_spec() == old(self).goal_spec(),
            final(self).solver_spec() == old(self).solver_spec(),
    {
        let ghost r0 = self.route@;
        let ghost m0 = self.route_marks@;
        let n = self.route.len();
        let mut marks = self.route_marks.clone();
        proof {
            lemma_trim_marks(m0, n as int);
        }
        while marks.len() > 0 && marks[marks.len() - 1] as usize >= n
            invariant
                marks@.len() <= m0.len(),
                marks@ == m0.subrange(0, marks@.len() as int),
                trim_marks(m0, n as int) == trim_marks(marks@, n as int),
            decreases marks@.len(),
        {
            let ghost before = marks@;
            marks.pop();
            proof {
                assert(marks@ =~= before.drop_last());
                assert(marks@ =~= m0.subrange(0, marks@.len() as int));
            }
        }
        proof {
            assert(trim_marks(marks@, n as int) == marks@);
        }
        let mut route = self.route.clone();
        match marks.pop() {
            Some(m) => {
                route.truncate(m as usize);
            },
            None => {
                let k = if n <= 1 { 1 } else { n - 1 };
                route.truncate(k);
            },
        }
        if route.len() == 0 {
            route.push(self.start);
        }
        proof {
            let t = trim_marks(m0, n as int);
            let cut = if t.len() > 0 {
                r0.subrange(0, t.last() as int)
            } else if r0.len() <= 1 {
                r0
            } else {
                r0.subrange(0, r0.len() - 1)
            };
            if cut.len() == 0 {
                assert(route@ =~= seq![self.start]);
            } else {
                assert(route@ =~= cut);
            }
            assert forall|k: int| 0 <= k < route@.len() implies #[trigger] route@[k] < self.dom.size() by {
                if cut.len() > 0 {
                    assert(route@[k] == r0[k]);
                }
            }
        }
        self.route = route;
        self.route_marks = marks;
    }

    /// Why the drawn route is not a legal start-to-goal path, or `None`.
    pub fn route_error(&self) -> (e: Option<String>)
        requires
            self.wf(),
        ensures
            e is None <==> route_error(self.dom_spec(), self.terrain_spec(), self.route_spec(), self.start_spec(),
                self.goal_spec(), self.diagonals_spec()) is None,
            e matches Some(s) ==> s@ == route_error(self.dom_spec(), self.terrain_spec(), self.route_spec(),
                self.start_spec(), self.goal_spec(), self.diagonals_spec()).unwrap()@,
    {
        match crate::route::validate_route(&self.dom, &self.terrain, &self.route, self.start, self.goal, self.diagonals) {
            Some(m) => Some(String::from_str(m)),
            None => None,
        }
    }

    /// Weighted cost of the drawn route, in units of `COST_ONE`, or `None`
    /// when it is not a legal route from start to goal.
    pub fn route_cost(&self) -> (c: Option<u128>)
        requires
            self.wf(),
        ensures
            c is Some <==> route_error(self.dom_spec(), self.terrain_spec(), self.route_spec(), self.start_spec(),
                self.goal_spec(), self.diagonals_spec()) is None,
            c matches Some(v) ==> path_cost_spec(self.dom_spec(), self.terrain_spec(), self.route_spec()) == Some(v as int),
    {
        if crate::route::validate_route(&self.dom, &self.terrain, &self.route, self.start, self.goal, self.diagonals).is_some() {
            return None;
        }
        proof {
            crate::route::lemma_route_error_none(self.dom, self.terrain@, self.route@, self.start, self.goal, self.diagonals);
            crate::solver::lemma_legal_cost(self.dom, self.terrain@, self.route@, self.diagonals);
        }
        crate::route::path_cost(&self.dom, &self.terrain, &self.route)
    }

    /// Compute the A* reference solve of the present world once.
    fn compute_optimal(&mut self)
        requires
            old(self).wf(),
        ensures
            final(self).wf(),
            final(self).optimal is Some,
            old(self).optimal is Some ==> final(self).optimal == old(self).optimal,
            final(self).dom == old(self).dom,
            final(self).terrain == old(self).terrain,
            final(self).searched == old(self).searched,
            final(self).solver == old(self).solver,
            final(self).start == old(self).start,
            final(self).goal == old(self).goal,
            final(self).diagonals == old(self).diagonals,
            final(self).algo == old(self).algo,
            final(self).route == old(self).route,
            final(self).route_marks == old(self).route_marks,
            final(self).anchor == old(self).anchor,
            final(self).stale == old(self).stale,
    {
        if self.optimal.is_some() {
            return;
        }
        let mut s = Solver::new(&self.dom, &self.terrain, self.start, self.goal, self.diagonals, ALGO_ASTAR);
        s.run(&self.dom, &self.terrain);
        if s.found() {
            let c = s.cost().unwrap();
            let p = s.path_vec();
            proof {
                s.lemma_state_parts();
                lemma_freed_unchanged(self.terrain@, self.start as int, self.goal as int);
                s.lemma_optimal(self.dom, self.terrain@);
                s.lemma_found_route(self.dom, self.terrain@);
            }
            proof {
                assert(s.state() == replay(self.dom, self.terrain@, self.start, self.goal, self.diagonals, ALGO_ASTAR,
                    run_budget(self.dom)));
                assert(p@ == s.state().9);
                assert(c == s.state().8);
            }
            self.optimal = Some((Some(c), p));
        } else {
            proof {
                s.lemma_state_parts();
                lemma_freed_unchanged(self.terrain@, self.start as int, self.goal as int);
                if self.terrain@[self.start as int] != T_VOID {
                    s.lemma_no_path_unreachable(self.dom, self.terrain@);
                }
            }
            let p: Vec<u32> = Vec::new();
            proof {
                s.lemma_no_path_empty(self.dom, endpoints_freed(self.terrain@, self.start as int, self.goal as int));
                assert(p@ =~= s.path_spec());
            }
            self.optimal = Some((None, p));
        }
    }

    /// Cost of a genuinely optimal route, whatever algorithm is on display:
    /// no walk from the start to the goal costs less; `None` when no route
    /// exists.
    pub fn optimal_cost(&mut self) -> (c: Option<u128>)
        requires
            old(self).wf(),
        ensures
            final(self).wf(),
            final(self).optimal_spec() matches Some((oc, p)) && oc == c,
            optimal_facts(
                final(self).dom_spec(),
                final(self).terrain_spec(),
                final(self).start_spec(),
                final(self).goal_spec(),
                final(self).diagonals_spec(),
                c,
                final(self).optimal_spec().unwrap().1,
            ),
            final(self).dom_spec() == old(self).dom_spec(),
            final(self).terrain_spec() == old(self).terrain_spec(),
            final(self).start_spec() == old(self).start_spec(),
            final(self).goal_spec() == old(self).goal_spec(),
            final(self).diagonals_spec() == old(self).diagonals_spec(),
            final(self).route_spec() == old(self).route_spec(),
            final(self).solver_spec() == old(self).solver_spec(),
    {
        self.compute_optimal();
        match &self.optimal {
            Some((c, _)) => *c,
            None => None,
        }
    }

    /// The optimal route the reference solve found, empty when none exists.
    pub fn optimal_path(&mut self) -> (p: Vec<u32>)
        requires
            old(self).wf(),
        ensures
            final(self).wf(),
            final(self).optimal_spec() matches Some((oc, q)) && q == p@,
            optimal_facts(
                final(self).dom_spec(),
                final(self).terrain_spec(),
                final(self).start_spec(),
                final(self).goal_spec(),
                final(self).diagonals_spec(),
                final(self).optimal_spec().unwrap().0,
                p@,
            ),
            final(self).dom_spec() == old(self).dom_spec(),
            final(self).terrain_spec() == old(self).terrain_spec(),
            final(self).start_spec() == old(self).start_spec(),
            final(self).goal_spec() == old(self).goal_spec(),
            final(self).diagonals_spec() == old(self).diagonals_spec(),
            final(self).route_spec() == old(self).route_spec(),
            final(self).solver_spec() == old(self).solver_spec(),
    {
        self.compute_optimal();
        match &self.optimal {
            Some((_, p)) => p.clone(),
            None => Vec::new(),
        }
    }

    /// A legal drawn route never costs less than the optimum.
    #[verifier::spinoff_prover]
    #[verifier::rlimit(40)]
    pub proof fn lemma_route_not_below_optimum(&self, o: u128)
        requires
            self.wf(),
            route_error(self.dom_spec(), self.terrain_spec(), self.route_spec(), self.start_spec(), self.goal_spec(),
                self.diagonals_spec()) is None,
            self.optimal_spec() matches Some((oc, p)) && oc == Some(o),
        ensures
            o <= walk_cost(self.dom_spec(), self.terrain_spec(), self.route_spec()),
    {
        let (dom, terrain, p) = (self.dom, self.terrain@, self.route@);
        crate::route::lemma_route_error_none(dom, terrain, p, self.start, self.goal, self.diagonals);
        assert forall|i: int| 0 < i < p.len() implies #[trigger] crate::route::edge(dom, terrain, p[i - 1] as int, p[i] as int, self.diagonals) by {
            assert(crate::route::open_cell(terrain, p[i] as int));
            assert(crate::route::open_cell(terrain, p[i - 1] as int));
            assert(crate::route::legal_step(dom, p[i - 1] as int, p[i] as int, self.diagonals));
            assert(terrain[p[i] as int] != T_VOID);
            assert(terrain[p[i - 1] as int] != T_VOID);
        }
        assert(is_walk(dom, terrain, p, self.diagonals));
    }

    /// The world's buffers: a well-formed domain, terrain one byte per cell
    /// of its box, and endpoints inside the box.
    pub proof fn lemma_sizes(&self)
        requires
            self.wf(),
        ensures
            self.dom_spec().wf(),
            self.terrain_spec().len() == self.dom_spec().size(),
            self.start_spec() < self.dom_spec().size(),
            self.goal_spec() < self.dom_spec().size(),
    {
    }

    /// While the search shown is current, its solver keeps its invariant
    /// over the world's terrain, so the solver's laws (the meaning of the
    /// state buffer, optimality, void cells untouched) speak of this world.
    pub proof fn lemma_search_over_terrain(&self)
        requires
            self.wf(),
            self.search_current(),
        ensures
            self.solver_spec().inv(self.dom_spec(), self.terrain_spec()),
            self.solver_spec().start_spec() == self.start_spec(),
            self.solver_spec().goal_spec() == self.goal_spec(),
    {
        lemma_freed_unchanged(self.terrain@, self.start as int, self.goal as int);
    }

    /// The endpoints are cells of the world, and never sit on a wall or on
    /// each other.
    pub proof fn lemma_endpoints_apart(&self)
        requires
            self.wf(),
        ensures
            self.dom_spec().cell_exists(self.start_spec() as int),
            self.dom_spec().cell_exists(self.goal_spec() as int),
            self.start_spec() != self.goal_spec(),
            self.terrain_spec()[self.start_spec() as int] != T_OBST,
            self.terrain_spec()[self.goal_spec() as int] != T_OBST,
    {
    }

    /// Terrain is void exactly outside the domain's shape.
    pub proof fn lemma_void_outside_shape(&self)
        requires
            self.wf(),
        ensures
            forall|i: int|
                0 <= i < self.dom_spec().size() ==> (#[trigger] self.terrain_spec()[i] == T_VOID <==> !self.dom_spec().cell_exists(i)),
    {
    }

    /// Replay is exact: two worlds with the same domain, terrain, endpoints,
    /// adjacency and algorithm, each at step `k`, show the same search, with
    /// the same counts, state buffer, outcome and path.
    pub proof fn lemma_replay_exact(a: &World, b: &World, k: nat)
        requires
            a.at_step(k),
            b.at_step(k),
            a.dom_spec() == b.dom_spec(),
            a.terrain_spec() == b.terrain_spec(),
            a.start_spec() == b.start_spec(),
            a.goal_spec() == b.goal_spec(),
            a.diagonals_spec() == b.diagonals_spec(),
            a.algo_spec() == b.algo_spec(),
        ensures
            a.solver_spec().state() == b.solver_spec().state(),
            a.solver_spec().expanded_spec() == b.solver_spec().expanded_spec(),
            a.solver_spec().frontier_spec() == b.solver_spec().frontier_spec(),
            a.solver_spec().cells_spec() == b.solver_spec().cells_spec(),
            a.solver_spec().done_spec() == b.solver_spec().done_spec(),
            a.solver_spec().found_spec() == b.solver_spec().found_spec(),
            a.solver_spec().cost_spec() == b.solver_spec().cost_spec(),
            a.solver_spec().path_spec() == b.solver_spec().path_spec(),
    {
        a.solver_spec().lemma_state_parts();
        b.solver_spec().lemma_state_parts();
    }

    /// Where a replay stands against a full run of `n` expansions: before
    /// `n` steps the search is running with one expansion per step; at `n`
    /// steps it has `n` expansions, and is done if the finished search found
    /// a path; from `n + 1` steps on it is the finished search, done with
    /// `n` expansions.
    pub proof fn lemma_replay_end(&self, n: u32, k: nat)
        requires
            self.at_step(k),
            run_length(self.dom_spec(), self.terrain_spec(), self.start_spec(), self.goal_spec(), self.diagonals_spec(),
                self.algo_spec(), n),
        ensures
            k < n ==> !self.solver_spec().done_spec() && self.solver_spec().expanded_spec() == k,
            k == n ==> self.solver_spec().expanded_spec() == n,
            k == n && self.replayed((n + 1) as nat).7 ==> self.solver_spec().done_spec(),
            k > n ==> self.solver_spec().state() == self.replayed((n + 1) as nat),
            k > n ==> self.solver_spec().done_spec() && self.solver_spec().expanded_spec() == n,
    {
        self.solver_spec().lemma_state_parts();
        if k > n {
            let t = self.terrain_spec();
            crate::solver::lemma_steps_settle(
                crate::solver::fresh_state(self.dom_spec(), t, self.start_spec(), self.goal_spec(), self.diagonals_spec(),
                    self.algo_spec()),
                self.dom_spec(),
                endpoints_freed(t, self.start_spec() as int, self.goal_spec() as int),
                self.start_spec(),
                self.goal_spec(),
                self.diagonals_spec(),
                self.algo_spec(),
                (n + 1) as nat,
                k,
            );
        }
    }
}

} // verus!
