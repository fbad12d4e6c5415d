use pathfind3d::domain::{Domain, Preset};
use pathfind3d::heap::{MinHeap, Node};
use pathfind3d::route::{connect, path_cost, validate_route};
use pathfind3d::solver::{heuristic_exec, Solver, ALGO_ASTAR, ALGO_BFS, COST_ONE, SQRT_2, SQRT_3};
use pathfind3d::terrain::Rng;
use pathfind3d::{T_OBST, T_VOID};

#[test]
fn connect_takes_the_fewest_hops_along_a_row() {
    let dom = Domain::raw(6, 1, 1, [false; 3]);
    let terrain = vec![1u8; dom.total()];
    let leg = connect(&dom, &terrain, 0, 5, true).expect("an open row connects");
    assert_eq!(leg, vec![0, 1, 2, 3, 4, 5]);
}

#[test]
fn connect_counts_a_diagonal_as_one_hop() {
    let dom = Domain::raw(5, 5, 1, [false; 3]);
    let terrain = vec![1u8; dom.total()];
    let a = dom.idx(0, 0, 0);
    let b = dom.idx(4, 4, 0);
    let diag = connect(&dom, &terrain, a, b, true).unwrap();
    assert_eq!(diag.len(), 5, "four diagonal hops");
    let straight = connect(&dom, &terrain, a, b, false).unwrap();
    assert_eq!(straight.len(), 9, "eight axis hops");
    assert!(validate_route(&dom, &terrain, &straight, a, b, false).is_none());
}

#[test]
fn connect_to_the_same_cell_is_that_cell() {
    let dom = Domain::raw(3, 3, 3, [false; 3]);
    let terrain = vec![1u8; dom.total()];
    let a = dom.idx(1, 1, 1);
    assert_eq!(connect(&dom, &terrain, a, a, true), Some(vec![a]));
}

#[test]
fn connect_refuses_a_walled_or_void_end() {
    let dom = Domain::raw(4, 1, 1, [false; 3]);
    let mut terrain = vec![1u8; dom.total()];
    terrain[3] = T_OBST;
    assert_eq!(connect(&dom, &terrain, 0, 3, true), None);
    terrain[3] = T_VOID;
    assert_eq!(connect(&dom, &terrain, 0, 3, true), None);
    terrain[3] = 1;
    terrain[2] = T_VOID;
    assert_eq!(connect(&dom, &terrain, 0, 3, true), None, "void cells are not walked");
}

#[test]
fn validate_route_names_each_failure() {
    let dom = Domain::raw(5, 5, 1, [false; 3]);
    let mut terrain = vec![1u8; dom.total()];
    let a = dom.idx(0, 0, 0);
    let b = dom.idx(1, 0, 0);
    let c = dom.idx(2, 0, 0);
    let hole = dom.idx(0, 1, 0);
    terrain[hole as usize] = T_VOID;
    assert_eq!(validate_route(&dom, &terrain, &[], a, b, true), Some("empty route"));
    assert_eq!(validate_route(&dom, &terrain, &[b, c], a, c, true), Some("must begin at start"));
    assert_eq!(validate_route(&dom, &terrain, &[a, b], a, c, true), Some("must reach the goal"));
    assert_eq!(validate_route(&dom, &terrain, &[a, hole, b], a, b, true), Some("route leaves the domain"));
    assert_eq!(validate_route(&dom, &terrain, &[a, 999, b], a, b, true), Some("route leaves the domain"));
    assert_eq!(validate_route(&dom, &terrain, &[a, c], a, c, true), Some("route jumps cells"));
    assert_eq!(validate_route(&dom, &terrain, &[a, a, b], a, b, true), Some("route repeats a cell"));
    assert_eq!(validate_route(&dom, &terrain, &[a, b, c], a, c, true), None);
}

#[test]
fn path_cost_multiplies_the_base_step_by_the_entered_weight() {
    let dom = Domain::raw(5, 5, 5, [false; 3]);
    let mut terrain = vec![1u8; dom.total()];
    let o = dom.idx(0, 0, 0);
    let face = dom.idx(1, 1, 0);
    let corner = dom.idx(1, 1, 1);
    terrain[face as usize] = 3;
    assert_eq!(path_cost(&dom, &terrain, &[o]), Some(0));
    assert_eq!(path_cost(&dom, &terrain, &[o, face]), Some(SQRT_2 as u128 * 3));
    assert_eq!(path_cost(&dom, &terrain, &[o, corner]), Some(SQRT_3 as u128));
    assert_eq!(
        path_cost(&dom, &terrain, &[o, dom.idx(1, 0, 0), face]),
        Some(COST_ONE as u128 + COST_ONE as u128 * 3)
    );
    // A two-cell jump along one axis is priced like a face diagonal; a move
    // over more than three axes' worth of separation has no cost at all.
    assert_eq!(path_cost(&dom, &terrain, &[o, dom.idx(2, 0, 0)]), Some(SQRT_2 as u128));
    assert_eq!(path_cost(&dom, &terrain, &[o, dom.idx(3, 3, 0)]), None);
}

#[test]
fn heuristic_is_the_empty_grid_minimum() {
    let dom = Domain::raw(9, 9, 9, [false; 3]);
    let a = dom.idx(0, 0, 0);
    let b = dom.idx(2, 1, 0);
    // One face diagonal and one straight step.
    assert_eq!(heuristic_exec(&dom, true, a, b), SQRT_2 as u128 + COST_ONE as u128);
    assert_eq!(heuristic_exec(&dom, false, a, b), 3 * COST_ONE as u128);
    assert_eq!(heuristic_exec(&dom, true, b, b), 0);
}

#[test]
fn heuristic_never_exceeds_the_optimal_cost() {
    let dom = Domain::raw(6, 6, 6, [true, false, false]);
    let mut terrain = vec![1u8; dom.total()];
    for (i, t) in terrain.iter_mut().enumerate() {
        *t = 1 + (i * 7 % 10) as u8;
    }
    let start = dom.idx(0, 2, 3);
    let goal = dom.idx(5, 4, 1);
    let mut s = Solver::new(&dom, &terrain, start, goal, true, ALGO_ASTAR);
    s.run(&dom, &terrain);
    let cost = s.cost().expect("an open grid is solvable");
    assert!(heuristic_exec(&dom, true, start, goal) <= cost);
    // Wrapped: x 0 and 5 are one step apart.
    assert_eq!(heuristic_exec(&dom, true, dom.idx(0, 0, 0), dom.idx(5, 0, 0)), COST_ONE as u128);
}

#[test]
fn bfs_path_length_matches_connect() {
    let dom = Domain::raw(7, 7, 1, [false; 3]);
    let mut terrain = vec![1u8; dom.total()];
    for y in 0..6 {
        terrain[dom.idx(3, y, 0) as usize] = T_OBST;
    }
    let a = dom.idx(0, 0, 0);
    let b = dom.idx(6, 0, 0);
    let mut s = Solver::new(&dom, &terrain, a, b, true, ALGO_BFS);
    s.run(&dom, &terrain);
    let leg = connect(&dom, &terrain, a, b, true).unwrap();
    assert!(s.found());
    assert_eq!(s.path().len(), leg.len(), "both take the fewest hops");
}

#[test]
fn preset_names_read_back_as_the_same_preset() {
    for p in [Preset::Cube, Preset::Prism, Preset::Pyramid, Preset::Sphere, Preset::Torus] {
        assert!(Preset::parse(p.as_str()) == p);
    }
    assert!(Preset::parse("donut") == Preset::Cube);
    assert!(Preset::parse("") == Preset::Cube);
}

#[test]
fn heap_pops_by_priority_then_heuristic_then_highest_index() {
    let mut h = MinHeap::new();
    let nodes = [
        Node { f: 5, h: 1, idx: 1 },
        Node { f: 3, h: 2, idx: 2 },
        Node { f: 3, h: 1, idx: 3 },
        Node { f: 3, h: 1, idx: 7 },
        Node { f: 9, h: 0, idx: 4 },
    ];
    for n in nodes {
        h.push(n);
    }
    assert_eq!(h.len(), 5);
    let order: Vec<(u128, u128, u32)> = std::iter::from_fn(|| h.pop()).map(|n| (n.f, n.h, n.idx)).collect();
    assert_eq!(order, vec![(3, 1, 7), (3, 1, 3), (3, 2, 2), (5, 1, 1), (9, 0, 4)]);
    assert!(h.pop().is_none());
}

#[test]
fn below_and_chance_read_the_next_word_exactly() {
    let mut a = Rng::new(41);
    let mut b = Rng::new(41);
    for n in [1i32, 3, 10, 1000, 0] {
        let w = a.next_word();
        let got = b.below(n);
        assert_eq!(got as u64, (w as u64 * n as u64) >> 32);
        // The same value as truncating the unit-interval float times n.
        assert_eq!(got, ((w as f64 / 4_294_967_296.0) * n as f64) as i32);
    }
    let w = a.next_word();
    assert_eq!(b.below(-7), -(((w as u64 * 7) >> 32) as i32));
    for (num, den) in [(1u64, 2u64), (1, 20), (7, 10), (0, 1), (1, 1)] {
        let w = a.next_word() as u128;
        assert_eq!(b.chance(num, den), (w * den as u128) < ((num as u128) << 32));
    }
}

#[test]
fn an_endpoint_on_a_wall_is_searched_as_open_ground() {
    let dom = Domain::raw(5, 5, 1, [false; 3]);
    let mut terrain = vec![1u8; dom.total()];
    let start = dom.idx(0, 0, 0);
    let goal = dom.idx(4, 4, 0);
    terrain[goal as usize] = T_OBST;
    terrain[start as usize] = T_OBST;
    for algo in 0..=7u8 {
        let mut s = Solver::new(&dom, &terrain, start, goal, true, algo);
        s.run(&dom, &terrain);
        assert!(s.found(), "algorithm {algo}");
        assert_eq!(s.path()[0], start);
        assert_eq!(*s.path().last().unwrap(), goal);
    }
    let mut s = Solver::new(&dom, &terrain, start, goal, true, ALGO_ASTAR);
    s.run(&dom, &terrain);
    // Four diagonal steps, the last into the freed goal at weight 1.
    assert_eq!(s.cost(), Some(4 * SQRT_2 as u128));
}

/// The perforated-wall layout written out step by step, drawing from the
/// stream in the same order.
fn walls_by_hand(dom: &Domain, terrain: &mut [u8], rnd: &mut Rng) {
    let dims = [dom.nx, dom.ny, dom.nz];
    let max_dim = dom.nx.max(dom.ny).max(dom.nz);
    let wall_count = if max_dim >= 18 { 3 } else { 2 };
    let mut used: Vec<i32> = Vec::new();
    for _ in 0..wall_count {
        let axis = rnd.below(3) as usize;
        let n = dims[axis];
        if n < 5 {
            continue;
        }
        let mut p = 2 + rnd.below(n - 4);
        let taken = |used: &Vec<i32>, p: i32| {
            let k = axis as i32 * 1000 + p;
            used.contains(&k) || used.contains(&(k + 1)) || used.contains(&(k - 1))
        };
        let mut guard = 0;
        while guard < 24 && taken(&used, p) {
            p = 2 + rnd.below(n - 4);
            guard += 1;
        }
        used.push(axis as i32 * 1000 + p);
        let uu = match axis {
            0 => [1usize, 2],
            1 => [0, 2],
            _ => [0, 1],
        };
        let (du, dv) = (dims[uu[0]], dims[uu[1]]);
        let put = |terrain: &mut [u8], u: i32, v: i32, val: u8| {
            let c = match axis {
                0 => (p, u, v),
                1 => (u, p, v),
                _ => (u, v, p),
            };
            let i = dom.idx(c.0, c.1, c.2) as usize;
            if dom.exists[i] == 1 {
                terrain[i] = val;
            }
        };
        for u in 0..du {
            for v in 0..dv {
                put(terrain, u, v, T_OBST);
            }
        }
        let holes = 1 + rnd.below(2);
        for _ in 0..holes {
            let hu = 1 + rnd.below(du - 2);
            let hv = 1 + rnd.below(dv - 2);
            let r = if max_dim >= 16 {
                1
            } else if (rnd.next_word() as f64 / 4_294_967_296.0) < 0.5 {
                1
            } else {
                0
            };
            for d_u in -r..=r {
                for d_v in -r..=r {
                    let (cu, cv) = (hu + d_u, hv + d_v);
                    if cu >= 0 && cv >= 0 && cu < du && cv < dv {
                        put(terrain, cu, cv, 1);
                    }
                }
            }
        }
        for u in 0..du {
            for v in 0..dv {
                if (rnd.next_word() as f64 / 4_294_967_296.0) < 0.05 {
                    put(terrain, u, v, 1);
                }
            }
        }
    }
}

#[test]
fn walls_follow_the_seeded_stream() {
    for (preset, size, seed) in [(Preset::Cube, 12, 41u32), (Preset::Torus, 16, 7), (Preset::Prism, 20, 3), (Preset::Sphere, 9, 99)] {
        let dom = Domain::preset(preset, size);
        let mut a = pathfind3d::terrain::blank(&dom);
        let mut b = a.clone();
        let mut ra = Rng::new(seed);
        let mut rb = Rng::new(seed);
        pathfind3d::terrain::walls(&dom, &mut a, &mut ra);
        walls_by_hand(&dom, &mut b, &mut rb);
        assert_eq!(a, b, "{} {size} {seed}", preset.as_str());
        assert_eq!(ra.next_word(), rb.next_word(), "the stream ends where it should");
        assert!(a.iter().any(|&t| t == T_OBST));
    }
}

#[test]
fn the_state_buffer_shows_the_search() {
    let dom = Domain::raw(8, 8, 8, [false; 3]);
    let mut terrain = vec![1u8; dom.total()];
    for y in 0..7 {
        for z in 0..8 {
            terrain[dom.idx(4, y, z) as usize] = T_OBST;
        }
    }
    let start = dom.idx(0, 0, 0);
    let goal = dom.idx(7, 0, 0);
    let mut s = Solver::new(&dom, &terrain, start, goal, true, ALGO_ASTAR);
    s.step_many(&dom, &terrain, 20);
    let count = |c: u8| s.cells().iter().filter(|&&x| x == c).count() as u32;
    assert_eq!(count(pathfind3d::CLOSED), s.expanded());
    assert_eq!(count(pathfind3d::OPEN), s.frontier());
    assert_eq!(count(pathfind3d::OBST) as usize, terrain.iter().filter(|&&t| t == T_OBST).count());
    assert_eq!(count(pathfind3d::PATH), 0);
    s.run(&dom, &terrain);
    assert!(s.found());
    for i in 0..dom.total() as u32 {
        assert_eq!(s.cells()[i as usize] == pathfind3d::PATH, s.path().contains(&i));
    }
}

#[test]
fn stepping_in_batches_reaches_the_same_state() {
    let dom = Domain::raw(8, 8, 8, [false, true, false]);
    let mut terrain = vec![1u8; dom.total()];
    for y in 0..6 {
        for z in 0..8 {
            terrain[dom.idx(3, y, z) as usize] = T_OBST;
        }
    }
    terrain[dom.idx(5, 5, 5) as usize] = 9;
    let (start, goal) = (dom.idx(0, 0, 0), dom.idx(7, 2, 6));
    for algo in [ALGO_ASTAR, ALGO_BFS, pathfind3d::solver::ALGO_BISWARM, pathfind3d::solver::ALGO_DFS] {
        let mut a = Solver::new(&dom, &terrain, start, goal, true, algo);
        let mut b = Solver::new(&dom, &terrain, start, goal, true, algo);
        let mut c = Solver::new(&dom, &terrain, start, goal, true, algo);
        a.step_many(&dom, &terrain, 3);
        a.step_many(&dom, &terrain, 4);
        b.step_many(&dom, &terrain, 7);
        for _ in 0..7 {
            c.step_many(&dom, &terrain, 1);
        }
        for s in [&b, &c] {
            assert_eq!(a.cells(), s.cells(), "algo {algo}");
            assert_eq!(a.expanded(), s.expanded(), "algo {algo}");
            assert_eq!(a.frontier(), s.frontier(), "algo {algo}");
            assert_eq!(a.is_done(), s.is_done(), "algo {algo}");
        }
        // Any budget that lets the search finish ends in the same state.
        a.run(&dom, &terrain);
        b.step_many(&dom, &terrain, 100_000);
        assert!(a.is_done() && b.is_done());
        assert_eq!(a.cells(), b.cells(), "algo {algo}");
        assert_eq!(a.path(), b.path(), "algo {algo}");
        assert_eq!(a.expanded(), b.expanded(), "algo {algo}");
        assert_eq!(a.cost(), b.cost(), "algo {algo}");
    }
}

#[test]
fn a_search_that_finds_nothing_is_done_one_step_after_its_count() {
    let dom = Domain::raw(6, 6, 6, [false; 3]);
    let mut terrain = vec![1u8; dom.total()];
    let goal = dom.idx(4, 4, 4);
    for dz in -1..=1 {
        for dy in -1..=1 {
            for dx in -1..=1 {
                if (dx, dy, dz) != (0, 0, 0) {
                    terrain[dom.idx(4 + dx, 4 + dy, 4 + dz) as usize] = T_OBST;
                }
            }
        }
    }
    let start = dom.idx(0, 0, 0);
    let mut full = Solver::new(&dom, &terrain, start, goal, true, ALGO_ASTAR);
    full.run(&dom, &terrain);
    assert!(full.is_done() && !full.found());
    let n = full.expanded();
    assert_eq!(n, 216 - 27, "every cell the start can reach closes once");
    let mut s = Solver::new(&dom, &terrain, start, goal, true, ALGO_ASTAR);
    s.step_many(&dom, &terrain, n);
    assert!(!s.is_done(), "the empty frontier is only seen by the next step");
    assert_eq!(s.expanded(), n);
    assert_eq!(s.frontier(), 0);
    s.step_many(&dom, &terrain, 1);
    assert!(s.is_done() && !s.found());
    assert_eq!(s.expanded(), n);
    assert_eq!(s.cells(), full.cells());
}

#[test]
fn the_opposite_move_leads_back() {
    let dom = Domain::preset(Preset::Torus, 16);
    let mut checked = 0u32;
    for a in 0..dom.total() as u32 {
        if !dom.exists_at(a) {
            continue;
        }
        for dz in -1..=1 {
            for dy in -1..=1 {
                for dx in -1..=1 {
                    if let Some(b) = dom.neighbor(a, dx, dy, dz) {
                        assert!(dom.exists_at(b) && b != a);
                        assert_eq!(dom.neighbor(b, -dx, -dy, -dz), Some(a), "{a} ({dx},{dy},{dz})");
                        checked += 1;
                    }
                }
            }
        }
    }
    assert!(checked > 0);
    // A wrapped axis of length one folds a move onto the cell itself.
    let thin = Domain::raw(1, 3, 1, [true, false, false]);
    assert_eq!(thin.neighbor(0, 1, 0, 0), None);
    assert_eq!(thin.neighbor(0, 1, 1, 0), Some(1));
    assert_eq!(thin.neighbor(1, -1, -1, 0), Some(0));
}

#[test]
fn joining_two_paths_adds_their_costs() {
    let dom = Domain::raw(5, 5, 1, [true, false, false]);
    let mut terrain = vec![1u8; dom.total()];
    terrain[dom.idx(2, 1, 0) as usize] = 4;
    terrain[dom.idx(4, 2, 0) as usize] = 7;
    let p = [dom.idx(0, 0, 0), dom.idx(1, 1, 0), dom.idx(2, 1, 0)];
    let q = [dom.idx(2, 1, 0), dom.idx(3, 2, 0), dom.idx(4, 2, 0), dom.idx(0, 2, 0)];
    let joined: Vec<u32> = p.iter().chain(q[1..].iter()).copied().collect();
    let (cp, cq) = (path_cost(&dom, &terrain, &p).unwrap(), path_cost(&dom, &terrain, &q).unwrap());
    assert_eq!(path_cost(&dom, &terrain, &joined), Some(cp + cq));
    assert_eq!(cp, (SQRT_2 + 4 * COST_ONE) as u128);
    // A jump in either part leaves the whole without a cost.
    let bad = [dom.idx(2, 1, 0), dom.idx(0, 4, 0)];
    let joined_bad: Vec<u32> = p.iter().chain(bad[1..].iter()).copied().collect();
    assert_eq!(path_cost(&dom, &terrain, &bad), None);
    assert_eq!(path_cost(&dom, &terrain, &joined_bad), None);
}

#[test]
fn carving_clears_both_endpoint_neighbourhoods() {
    let dom = Domain::preset(Preset::Cube, 12);
    let mut terrain: Vec<u8> = dom.exists.iter().map(|&e| if e == 1 { T_OBST } else { T_VOID }).collect();
    pathfind3d::terrain::carve_endpoints(&dom, &mut terrain);
    assert_eq!(terrain[dom.start as usize], 1);
    assert_eq!(terrain[dom.goal as usize], 1);
    let near = |c: u32, i: u32| {
        let (a, b) = (dom.coords(c), dom.coords(i));
        (a.0 - b.0).abs() <= 1 && (a.1 - b.1).abs() <= 1 && (a.2 - b.2).abs() <= 1
    };
    for i in 0..dom.total() as u32 {
        let want = if !dom.exists_at(i) {
            T_VOID
        } else if near(dom.start, i) || near(dom.goal, i) {
            1
        } else {
            T_OBST
        };
        assert_eq!(terrain[i as usize], want, "cell {i}");
    }
}
