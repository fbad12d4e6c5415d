use pathfind3d::domain::Domain;
use pathfind3d::route::{path_cost, validate_route};
use pathfind3d::solver::{
    Solver, ALGO_ASTAR, ALGO_BFS, ALGO_BISWARM, ALGO_CONVERGENT, ALGO_DFS, ALGO_DIJKSTRA, ALGO_GREEDY,
    ALGO_SWARM, COST_ONE,
};
use pathfind3d::terrain::Rng;
use pathfind3d::{FREE, T_OBST, T_VOID, W_MAX};

const SQRT_2: f64 = std::f64::consts::SQRT_2;
const SQRT_3: f64 = 1.732_050_807_568_877_2;

// ---------- helpers -------------------------------------------------

fn idx(nx: u32, ny: u32, x: u32, y: u32, z: u32) -> u32 {
    x + nx * (y + ny * z)
}

fn units(c: u128) -> f64 {
    c as f64 / COST_ONE as f64
}

/// The solver's cost as a float, NaN while it has none.
fn cost(s: &Solver) -> f64 {
    match s.cost() {
        Some(c) => units(c),
        None => f64::NAN,
    }
}

fn terrain_from_blocked(blocked: &[u8]) -> Vec<u8> {
    blocked.iter().map(|&b| if b != 0 { T_OBST } else { 1 }).collect()
}

/// Build and run to completion on a plain lattice domain.
fn solve(
    dims: (u32, u32, u32),
    wrap: [bool; 3],
    terrain: &[u8],
    s: (u32, u32, u32),
    g: (u32, u32, u32),
    diagonals: bool,
    algo: u8,
) -> (Domain, Vec<u8>, Solver) {
    let dom = Domain::raw(dims.0, dims.1, dims.2, wrap);
    let mut terrain = terrain.to_vec();
    let start = dom.idx(s.0 as i32, s.1 as i32, s.2 as i32);
    let goal = dom.idx(g.0 as i32, g.1 as i32, g.2 as i32);
    pathfind3d::terrain::sanitize(&mut terrain);
    pathfind3d::terrain::free_endpoints(&mut terrain, start, goal);
    let mut solver = Solver::new(&dom, &terrain, start, goal, diagonals, algo);
    solver.run(&dom, &terrain);
    assert!(solver.is_done(), "search did not terminate");
    (dom, terrain, solver)
}

fn cube(
    n: u32,
    blocked: &[u8],
    s: (u32, u32, u32),
    g: (u32, u32, u32),
    diagonals: bool,
    algo: u8,
) -> (Domain, Vec<u8>, Solver) {
    solve((n, n, n), [false; 3], &terrain_from_blocked(blocked), s, g, diagonals, algo)
}

fn lcg_terrain(total: usize, seed: u64, obst_pct: u64, weighted: bool) -> Vec<u8> {
    let mut lcg = seed;
    let mut next = || {
        lcg = lcg.wrapping_mul(6364136223846793005).wrapping_add(1442695040888963407);
        lcg >> 33
    };
    (0..total)
        .map(|_| {
            let r = next();
            if r % 100 < obst_pct {
                T_OBST
            } else if weighted {
                1 + (next() % W_MAX as u64) as u8
            } else {
                1
            }
        })
        .collect()
}

/// Path validity: correct endpoints, every cell existing and unblocked,
/// every step a legal (wrap-aware) neighbour move, and the solver's cost
/// equal to the re-summed weighted cost.
fn assert_valid_path(dom: &Domain, terrain: &[u8], s: &Solver) {
    let v = validate_route(dom, terrain, s.path(), s.start(), s.goal(), s.diagonals());
    assert!(v.is_none(), "path invalid: {}", v.unwrap());
    let resummed = path_cost(dom, terrain, s.path()).map(units).unwrap_or(f64::NAN);
    assert!(
        (resummed - cost(s)).abs() < 1e-9,
        "cost() must equal the re-summed weighted path cost"
    );
}

// ---------- edition-1 invariants --------------------------------------

#[test]
fn empty_3_cube_diagonals_optimal() {
    let (_, _, s) = cube(3, &[0u8; 27], (0, 0, 0), (2, 2, 2), true, ALGO_ASTAR);
    assert!(s.found());
    let want = 2.0 * SQRT_3;
    assert!((cost(&s) - want).abs() < 1e-9, "cost {}", cost(&s));
    assert_eq!(s.path().len(), 3);
    assert_eq!(s.path()[0], idx(3, 3, 0, 0, 0));
    assert_eq!(s.path()[2], idx(3, 3, 2, 2, 2));
}

#[test]
fn empty_3_cube_no_diagonals_manhattan() {
    let (_, _, s) = cube(3, &[0u8; 27], (0, 0, 0), (2, 2, 2), false, ALGO_ASTAR);
    assert!(s.found());
    assert!((cost(&s) - 6.0).abs() < 1e-9);
    assert_eq!(s.path().len(), 7);
}

#[test]
fn threads_through_single_hole_in_blocked_plane() {
    let n = 5u32;
    let mut blocked = vec![0u8; 125];
    for x in 0..n {
        for y in 0..n {
            if !(x == 2 && y == 2) {
                blocked[idx(n, n, x, y, 2) as usize] = 1;
            }
        }
    }
    let (d, t, s) = cube(n, &blocked, (0, 0, 0), (4, 4, 4), true, ALGO_ASTAR);
    assert!(s.found());
    assert!(
        s.path().contains(&idx(n, n, 2, 2, 2)),
        "path must pass through the only hole in the z=2 plane"
    );
    assert!((cost(&s) - 4.0 * SQRT_3).abs() < 1e-9);
    assert_valid_path(&d, &t, &s);
}

#[test]
fn walled_off_goal_reports_no_path() {
    let n = 4u32;
    let mut blocked = vec![0u8; 64];
    for x in 2..n {
        for y in 2..n {
            for z in 2..n {
                if !(x == 3 && y == 3 && z == 3) {
                    blocked[idx(n, n, x, y, z) as usize] = 1;
                }
            }
        }
    }
    let (_, _, s) = cube(n, &blocked, (0, 0, 0), (3, 3, 3), true, ALGO_ASTAR);
    assert!(s.is_done() && !s.found());
    assert!(s.path().is_empty());
}

#[test]
fn stepped_execution_matches_batch_for_every_algorithm() {
    let n = 8u32;
    let dom = Domain::raw(n, n, n, [false; 3]);
    let terrain = lcg_terrain(512, 42, 25, true);
    let (start, goal) = (dom.idx(0, 0, 0), dom.idx(7, 7, 7));
    for algo in [
        ALGO_ASTAR,
        ALGO_DIJKSTRA,
        ALGO_GREEDY,
        ALGO_SWARM,
        ALGO_CONVERGENT,
        ALGO_BISWARM,
        ALGO_BFS,
        ALGO_DFS,
    ] {
        let mut a = Solver::new(&dom, &terrain, start, goal, true, algo);
        let mut b = Solver::new(&dom, &terrain, start, goal, true, algo);
        while !a.is_done() {
            a.step_many(&dom, &terrain, 1);
        }
        b.run(&dom, &terrain);
        assert_eq!(a.found(), b.found(), "algo {algo}: found mismatch");
        assert_eq!(a.expanded(), b.expanded(), "algo {algo}: expanded mismatch");
        if a.found() {
            assert!((cost(&a) - cost(&b)).abs() < 1e-9, "algo {algo}: cost");
            assert_eq!(a.path(), b.path(), "algo {algo}: path mismatch");
        }
    }
}

// ---------- weighted cells --------------------------------------------

#[test]
fn dijkstra_equals_astar_on_weighted_random_grids() {
    for seed in [7u64, 99, 1234, 555, 2026] {
        let terrain = lcg_terrain(512, seed, 20, true);
        let (da, ta, a) = solve((8, 8, 8), [false; 3], &terrain, (0, 0, 0), (7, 7, 7), true, ALGO_ASTAR);
        let (dd, td, d) = solve((8, 8, 8), [false; 3], &terrain, (0, 0, 0), (7, 7, 7), true, ALGO_DIJKSTRA);
        assert_eq!(a.found(), d.found(), "seed {seed}: found mismatch");
        if a.found() {
            assert!(
                (cost(&a) - cost(&d)).abs() < 1e-9,
                "seed {seed}: A* {} != Dijkstra {}",
                cost(&a),
                cost(&d)
            );
            assert_valid_path(&da, &ta, &a);
            assert_valid_path(&dd, &td, &d);
        }
    }
}

#[test]
fn heavy_cell_forces_detour_light_cell_does_not() {
    // 5x3x3 corridor, start (0,1,1) -> goal (4,1,1), no diagonals. The
    // straight line passes through (2,1,1); a detour via y=0 costs 6.
    let (nx, ny, nz) = (5u32, 3u32, 3u32);
    let mid = idx(nx, ny, 2, 1, 1);
    for (w, want, through) in [(10u8, 6.0, false), (2u8, 5.0, true)] {
        let mut terrain = vec![1u8; (nx * ny * nz) as usize];
        terrain[mid as usize] = w;
        let (d, t, s) = solve((nx, ny, nz), [false; 3], &terrain, (0, 1, 1), (4, 1, 1), false, ALGO_ASTAR);
        assert!(s.found());
        assert!((cost(&s) - want).abs() < 1e-9, "weight {w}: cost {}", cost(&s));
        assert_eq!(s.path().contains(&mid), through, "weight {w}");
        assert_valid_path(&d, &t, &s);
        let (_, _, dj) = solve((nx, ny, nz), [false; 3], &terrain, (0, 1, 1), (4, 1, 1), false, ALGO_DIJKSTRA);
        assert!((cost(&dj) - want).abs() < 1e-9);
    }
}

// ---------- BFS/DFS hop semantics --------------------------------------

#[test]
fn bfs_returns_fewest_hops_not_least_cost() {
    // 3x3x1, diagonals on, heavy centre. BFS takes the 2-hop diagonal
    // route through the centre; A* pays fewer coins on a 3-hop detour.
    let mut terrain = vec![1u8; 9];
    terrain[idx(3, 3, 1, 1, 0) as usize] = 10;
    let (d, t, bfs) = solve((3, 3, 1), [false; 3], &terrain, (0, 0, 0), (2, 2, 0), true, ALGO_BFS);
    assert!(bfs.found());
    assert_eq!(bfs.path().len(), 3, "fewest hops is 2 (3 cells)");
    assert_valid_path(&d, &t, &bfs);
    let (_, _, astar) = solve((3, 3, 1), [false; 3], &terrain, (0, 0, 0), (2, 2, 0), true, ALGO_ASTAR);
    assert!(astar.path().len() > bfs.path().len());
    assert!(cost(&astar) < cost(&bfs), "least cost beats fewest hops here");
}

#[test]
fn bfs_fewest_hops_hand_checked() {
    // Empty 4^3, corner to corner, diagonals on: 3 hops (4 cells).
    let (_, _, s) = cube(4, &[0u8; 64], (0, 0, 0), (3, 3, 3), true, ALGO_BFS);
    assert_eq!(s.path().len(), 4);
    // Diagonals off: Manhattan distance 9 hops (10 cells).
    let (_, _, s) = cube(4, &[0u8; 64], (0, 0, 0), (3, 3, 3), false, ALGO_BFS);
    assert_eq!(s.path().len(), 10);
}

// ---------- non-optimal algorithms stay honest -------------------------

#[test]
fn suboptimal_algorithms_return_valid_paths_never_beating_optimal() {
    for seed in [3u64, 77, 909] {
        for diagonals in [true, false] {
            let terrain = lcg_terrain(512, seed, 18, true);
            let (_, _, d) = solve((8, 8, 8), [false; 3], &terrain, (0, 0, 0), (7, 7, 7), diagonals, ALGO_DIJKSTRA);
            for algo in [ALGO_GREEDY, ALGO_SWARM, ALGO_CONVERGENT, ALGO_BISWARM, ALGO_BFS, ALGO_DFS] {
                let (dm, t, s) = solve((8, 8, 8), [false; 3], &terrain, (0, 0, 0), (7, 7, 7), diagonals, algo);
                assert_eq!(
                    s.found(),
                    d.found(),
                    "seed {seed} algo {algo}: reachability must match Dijkstra"
                );
                if d.found() {
                    assert_valid_path(&dm, &t, &s);
                    assert!(
                        cost(&s) >= cost(&d) - 1e-9,
                        "seed {seed} algo {algo}: cost {} beats optimal {}",
                        cost(&s),
                        cost(&d)
                    );
                }
            }
        }
    }
}

#[test]
fn bidirectional_returns_valid_connected_path() {
    let terrain = lcg_terrain(1000, 4242, 22, true);
    let (d, t, s) = solve((10, 10, 10), [false; 3], &terrain, (0, 0, 0), (9, 9, 9), true, ALGO_BISWARM);
    assert!(s.found(), "grid should be solvable");
    assert_valid_path(&d, &t, &s);
}

// ---------- wraparound --------------------------------------------------

#[test]
fn wrap_x_shortcut_beats_unwrapped_route() {
    // 9x3x3 corridor, endpoints on opposite x faces. Without wrap the best
    // route costs 8; with wrap_x it is a single step.
    let terrain = vec![1u8; 9 * 3 * 3];
    let (_, _, flat) = solve((9, 3, 3), [false; 3], &terrain, (0, 1, 1), (8, 1, 1), false, ALGO_ASTAR);
    let (d, t, wrapped) = solve((9, 3, 3), [true, false, false], &terrain, (0, 1, 1), (8, 1, 1), false, ALGO_ASTAR);
    assert!((cost(&flat) - 8.0).abs() < 1e-9);
    assert!((cost(&wrapped) - 1.0).abs() < 1e-9);
    assert_valid_path(&d, &t, &wrapped);
}

#[test]
fn astar_stays_optimal_with_wrap_on_weighted_grids() {
    // The wrap-aware heuristic must keep A* == Dijkstra.
    for seed in [11u64, 313, 9000] {
        let terrain = lcg_terrain(9 * 7 * 8, seed, 20, true);
        let (d, t, a) = solve((9, 7, 8), [true; 3], &terrain, (0, 0, 0), (8, 6, 7), true, ALGO_ASTAR);
        let (_, _, dj) = solve((9, 7, 8), [true; 3], &terrain, (0, 0, 0), (8, 6, 7), true, ALGO_DIJKSTRA);
        assert_eq!(a.found(), dj.found());
        if a.found() {
            assert!(
                (cost(&a) - cost(&dj)).abs() < 1e-9,
                "seed {seed}: wrapped A* {} != Dijkstra {}",
                cost(&a),
                cost(&dj)
            );
            assert_valid_path(&d, &t, &a);
        }
    }
}

// ---------- domain mask --------------------------------------------------

#[test]
fn void_cells_never_searched_and_masked_goal_is_unreachable() {
    // Ellipsoid mask inside a 9^3 box; everything outside is void.
    let n = 9u32;
    let total = (n * n * n) as usize;
    let c = 4.0f64;
    let inside = |x: u32, y: u32, z: u32| {
        let (dx, dy, dz) = (x as f64 - c, y as f64 - c, z as f64 - c);
        (dx * dx + dy * dy + dz * dz).sqrt() <= 4.2
    };
    let mut terrain = vec![T_VOID; total];
    for z in 0..n {
        for y in 0..n {
            for x in 0..n {
                if inside(x, y, z) {
                    terrain[idx(n, n, x, y, z) as usize] = 1 + ((x + y + z) % 3) as u8;
                }
            }
        }
    }
    assert!(inside(4, 4, 0) && inside(4, 4, 8), "endpoints must exist");
    for algo in [ALGO_ASTAR, ALGO_BFS, ALGO_DFS, ALGO_BISWARM] {
        let (d, t, s) = solve((n, n, n), [false; 3], &terrain, (4, 4, 0), (4, 4, 8), true, algo);
        assert!(s.found(), "algo {algo}: path must exist inside the mask");
        for (i, &t) in terrain.iter().enumerate() {
            if t == T_VOID {
                assert_eq!(s.cells()[i], FREE, "algo {algo}: void cell {i} entered the search");
                assert!(!s.path().contains(&(i as u32)));
            }
        }
        assert_valid_path(&d, &t, &s);
    }
    // A goal placed outside the mask reports no path immediately.
    assert!(!inside(0, 0, 0));
    let (_, _, s) = solve((n, n, n), [false; 3], &terrain, (4, 4, 0), (0, 0, 0), true, ALGO_ASTAR);
    assert!(s.is_done() && !s.found() && s.path().is_empty());
}

// ---------- misc edge cases ----------------------------------------------

#[test]
fn start_equals_goal_is_a_zero_cost_path() {
    let dom = Domain::raw(3, 3, 3, [false; 3]);
    let terrain = vec![1u8; 27];
    let c = dom.idx(1, 1, 1);
    let s = Solver::new(&dom, &terrain, c, c, true, ALGO_ASTAR);
    assert!(s.is_done() && s.found());
    assert_eq!(s.path(), &[c]);
    assert!(cost(&s).abs() < 1e-12);
}

#[test]
fn non_cubic_dims_route_correctly() {
    let terrain = vec![1u8; 6 * 3 * 4];
    let (d, t, s) = solve((6, 3, 4), [false; 3], &terrain, (0, 0, 0), (5, 2, 3), true, ALGO_ASTAR);
    assert!(s.found());
    // deltas (5,2,3) sorted desc: (5-3)*1 + (3-2)*sqrt2 + 2*sqrt3
    let want = 2.0 + SQRT_2 + 2.0 * SQRT_3;
    assert!((cost(&s) - want).abs() < 1e-9, "cost {}", cost(&s));
    assert_valid_path(&d, &t, &s);
}

#[test]
fn rng_matches_the_reference_mulberry32_stream() {
    // The first words of the standard mulberry32 stream for seed 41.
    let unit = |r: &mut Rng| r.next_word() as f64 / 4_294_967_296.0;
    let mut r = Rng::new(41);
    let got: Vec<f64> = (0..4).map(|_| unit(&mut r)).collect();
    for v in &got {
        assert!((0.0..1.0).contains(v), "rng out of range: {v}");
    }
    // Deterministic: the same seed replays the same stream.
    let mut r2 = Rng::new(41);
    let again: Vec<f64> = (0..4).map(|_| unit(&mut r2)).collect();
    assert_eq!(got, again);
}
