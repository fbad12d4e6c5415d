use pathfind3d::domain::{Domain, Preset};
use pathfind3d::solver::{ALGO_ASTAR, ALGO_DFS, ALGO_DIJKSTRA, COST_ONE};
use pathfind3d::terrain::{blank, carve_endpoints, scatter, walls, Rng};
use pathfind3d::world::World;
use pathfind3d::{ROUTE_BLOCKED, ROUTE_FINISHED, ROUTE_OK, ROUTE_UNREACHABLE, T_OBST, T_VOID, W_MAX};

// ---------- the generator the front end uses ---------------------------

fn unit(rng: &mut Rng) -> f64 {
    rng.next_word() as f64 / 4_294_967_296.0
}

/// The terrain the front end generates for a domain: walls, floating
/// obstacle clusters, scatter, weighted blobs, carved endpoints.
fn generate(dom: &Domain, density_pct: u32, seed: u32, empty: bool) -> Vec<u8> {
    let (nx, ny, nz) = (dom.nx, dom.ny, dom.nz);
    let total = dom.total();
    let density = density_pct as f64 / 100.0;
    let mut rnd = Rng::new(seed);
    let mut terrain = blank(dom);
    let id = |x: i32, y: i32, z: i32| (x + nx * (y + ny * z)) as usize;
    if !empty {
        let max_dim = nx.max(ny).max(nz);
        walls(dom, &mut terrain, &mut rnd);
        let blobs = 2 + (density * 14.0).round() as i32 + max_dim / 9;
        for _ in 0..blobs {
            let cx = 1.0 + unit(&mut rnd) * (nx - 2) as f64;
            let cy = 1.0 + unit(&mut rnd) * (ny - 2) as f64;
            let cz = 1.0 + unit(&mut rnd) * (nz - 2) as f64;
            let rx = 1.0 + unit(&mut rnd) * nx as f64 * 0.11;
            let ry = 1.0 + unit(&mut rnd) * ny as f64 * 0.11;
            let rz = 1.0 + unit(&mut rnd) * nz as f64 * 0.11;
            let x0 = 0.max((cx - rx).floor() as i32);
            let x1 = (nx - 1).min((cx + rx).ceil() as i32);
            let y0 = 0.max((cy - ry).floor() as i32);
            let y1 = (ny - 1).min((cy + ry).ceil() as i32);
            let z0 = 0.max((cz - rz).floor() as i32);
            let z1 = (nz - 1).min((cz + rz).ceil() as i32);
            for z in z0..=z1 {
                for y in y0..=y1 {
                    for x in x0..=x1 {
                        let dd = ((x as f64 - cx) / rx).powi(2)
                            + ((y as f64 - cy) / ry).powi(2)
                            + ((z as f64 - cz) / rz).powi(2);
                        let i = id(x, y, z);
                        if dd <= 1.0 && unit(&mut rnd) < 0.9 && dom.exists[i] == 1 {
                            terrain[i] = T_OBST;
                        }
                    }
                }
            }
        }
        scatter(dom, &mut terrain, &mut rnd, density_pct);
        let w_blobs = 2 + (total as f64 / 1400.0).round() as i32;
        for _ in 0..w_blobs {
            let w = 3 + rnd.below(W_MAX as i32 - 2) as u8;
            let cx = 1.0 + unit(&mut rnd) * (nx - 2) as f64;
            let cy = 1.0 + unit(&mut rnd) * (ny - 2) as f64;
            let cz = 1.0 + unit(&mut rnd) * (nz - 2) as f64;
            let rr = 1.2 + unit(&mut rnd) * max_dim as f64 * 0.14;
            let x0 = 0.max((cx - rr).floor() as i32);
            let x1 = (nx - 1).min((cx + rr).ceil() as i32);
            let y0 = 0.max((cy - rr).floor() as i32);
            let y1 = (ny - 1).min((cy + rr).ceil() as i32);
            let z0 = 0.max((cz - rr).floor() as i32);
            let z1 = (nz - 1).min((cz + rr).ceil() as i32);
            for z in z0..=z1 {
                for y in y0..=y1 {
                    for x in x0..=x1 {
                        let dd = ((x as f64 - cx).powi(2) + (y as f64 - cy).powi(2) + (z as f64 - cz).powi(2))
                            / (rr * rr);
                        let i = id(x, y, z);
                        if dd <= 1.0 && dom.exists[i] == 1 && terrain[i] != T_OBST {
                            terrain[i] = if dd < 0.55 { w } else { 2.max(w >> 1) };
                        }
                    }
                }
            }
        }
    }
    carve_endpoints(dom, &mut terrain);
    terrain
}

fn new_world(preset: &str, size: u32, density: u32, seed: u32, empty: bool) -> World {
    let dom = Domain::preset(Preset::parse(preset), size);
    let terrain = generate(&dom, density, seed, empty);
    World::new(preset, size, density, seed, empty, terrain)
}

fn world() -> World {
    new_world("cube", 12, 18, 41, false)
}

fn units(c: Option<u128>) -> f64 {
    match c {
        Some(v) => v as f64 / COST_ONE as f64,
        None => f64::NAN,
    }
}

// ---------- behaviour -----------------------------------------------------

#[test]
fn a_fresh_world_has_clean_endpoints_and_a_runnable_search() {
    for preset in ["cube", "prism", "pyramid", "sphere", "torus"] {
        let mut w = new_world(preset, 16, 18, 41, false);
        assert!(w.cell_count() > 0, "{preset}: empty mask");
        assert_eq!(w.terrain_at(w.start_cell()), 1, "{preset}: start carved");
        assert_eq!(w.terrain_at(w.goal_cell()), 1, "{preset}: goal carved");
        for i in 0..w.len() {
            let t = w.terrain_at(i);
            let exists = w.mask()[i as usize] == 1;
            if exists {
                assert!(t == T_OBST || (1..=W_MAX).contains(&t), "{preset}: byte {t}");
            } else {
                assert_eq!(t, T_VOID, "{preset}: mask violated");
            }
        }
        let n = w.total_steps();
        w.seek(n);
        assert!(w.is_done(), "{preset}: search must terminate");
    }
}

#[test]
fn torus_wraps_x_and_nothing_else() {
    let w = new_world("torus", 16, 0, 1, true);
    assert_eq!(w.wraps(), vec![1u8, 0, 0]);
}

#[test]
fn seek_reproduces_the_same_state_as_stepping_there() {
    let mut a = world();
    let mut b = world();
    let target = a.total_steps() / 2;
    a.advance(target);
    b.seek(target);
    assert_eq!(a.expanded(), b.expanded());
    assert_eq!(a.frontier(), b.frontier());
    assert_eq!(a.states(), b.states());
}

#[test]
fn step_back_rewinds_exactly_one_expansion() {
    let mut w = world();
    let mid = w.total_steps() / 2;
    assert!(mid >= 1, "need a search with room to rewind");
    w.advance(mid);
    let before = w.states().to_vec();
    w.advance(1);
    assert_eq!(w.expanded(), mid + 1);
    w.step_back(1);
    assert_eq!(w.expanded(), mid);
    assert_eq!(w.states(), &before[..]);
}

#[test]
fn seeking_past_the_end_lands_on_the_finished_search() {
    let mut w = world();
    let n = w.total_steps();
    w.seek(n + 5_000);
    assert!(w.is_done());
    assert_eq!(w.expanded(), n);
}

#[test]
fn moving_an_endpoint_snaps_off_walls_and_never_onto_the_other_one() {
    let mut w = world();
    let goal = w.goal_cell();
    assert_eq!(w.set_start(goal), w.start_cell() as i32);
    assert_ne!(w.start_cell(), goal, "the endpoints must stay distinct");

    // Aim the start at a wall: it should land on an open cell nearby.
    let wall = (0..w.len()).find(|&i| w.terrain_at(i) == T_OBST);
    if let Some(wall) = wall {
        let got = w.set_start(wall);
        assert!(got >= 0);
        assert_ne!(w.terrain_at(got as u32), T_OBST);
    }
}

#[test]
fn endpoints_cannot_be_walled_in_but_other_cells_can() {
    let mut w = world();
    let s = w.start_cell();
    assert!(!w.paint(s, T_OBST), "the start must not be paintable shut");
    assert!(!w.paint(w.goal_cell(), T_OBST));
    let other = (0..w.len())
        .find(|&i| i != s && w.terrain_at(i) != T_VOID && w.terrain_at(i) != T_OBST)
        .unwrap();
    assert!(w.paint(other, T_OBST));
    assert_eq!(w.terrain_at(other), T_OBST);
}

#[test]
fn editing_marks_the_search_stale_rather_than_restarting_it() {
    let mut w = world();
    let mid = w.total_steps() / 2;
    w.advance(mid);
    let cell = (0..w.len())
        .find(|&i| i != w.start_cell() && i != w.goal_cell() && w.terrain_at(i) == 1)
        .unwrap();
    assert!(w.paint(cell, T_OBST));
    assert!(w.is_stale(), "an edit must flag the search as stale");
    assert_eq!(w.expanded(), mid, "but must not restart it mid-stroke");
    w.reset_search();
    assert!(!w.is_stale());
    assert_eq!(w.expanded(), 0);
}

#[test]
fn a_hand_drawn_route_is_bridged_scored_and_never_beats_the_optimum() {
    let mut w = new_world("cube", 12, 12, 7, false);
    w.route_begin();
    assert_eq!(w.route_append(w.goal_cell()), ROUTE_OK);
    assert!(w.route_complete());
    assert!(w.route_error().is_none(), "{:?}", w.route_error());
    let cost = units(w.route_cost());
    let opt = units(w.optimal_cost());
    assert!(cost.is_finite() && opt.is_finite());
    assert!(cost >= opt - 1e-9, "a drawn route ({cost}) cannot beat the optimum ({opt})");
}

#[test]
fn route_undo_removes_a_whole_bridged_leg() {
    let mut w = new_world("cube", 12, 0, 3, true);
    w.route_begin();
    let mid = w.dom().idx(6, 6, 6);
    assert_eq!(w.route_append(mid), ROUTE_OK);
    let after_leg = w.route_len();
    assert!(after_leg > 1);
    assert_eq!(w.route_append(w.goal_cell()), ROUTE_OK);
    assert!(w.route_len() > after_leg);
    w.route_undo();
    assert_eq!(w.route_len(), after_leg, "undo drops exactly the last leg");
    w.route_undo();
    assert_eq!(w.route_len(), 1, "back to just the start cell");
}

#[test]
fn a_route_into_a_wall_is_refused() {
    let mut w = world();
    let wall = (0..w.len()).find(|&i| w.terrain_at(i) == T_OBST);
    if let Some(wall) = wall {
        w.route_begin();
        assert_eq!(w.route_append(wall), ROUTE_BLOCKED);
    }
}

#[test]
fn changing_the_algorithm_restarts_the_search_but_keeps_the_world() {
    let mut w = world();
    let before: Vec<u8> = (0..w.len()).map(|i| w.terrain_at(i)).collect();
    w.advance(120);
    w.set_algo(ALGO_DFS);
    assert_eq!(w.expanded(), 0);
    assert_eq!(w.algo(), ALGO_DFS);
    let after: Vec<u8> = (0..w.len()).map(|i| w.terrain_at(i)).collect();
    assert_eq!(before, after, "the terrain must survive an algorithm change");
}

#[test]
fn clearing_terrain_leaves_open_ground_and_a_solvable_world() {
    let mut w = world();
    w.clear_terrain();
    for i in 0..w.len() {
        let t = w.terrain_at(i);
        assert!(t == T_VOID || t == 1, "cell {i} left at {t}");
    }
    let n = w.total_steps();
    w.seek(n);
    assert!(w.is_done() && w.found());
}

#[test]
fn a_fresh_world_runs_a_star_with_diagonals() {
    let w = world();
    assert_eq!(w.algo(), ALGO_ASTAR);
    assert!(w.diagonals());
    assert_eq!(w.expanded(), 0);
}

#[test]
fn a_sealed_cell_is_unreachable_and_a_finished_route_takes_no_more() {
    let mut w = new_world("cube", 12, 0, 3, true);
    let dom = Domain::preset(Preset::Cube, 12);
    let (cx, cy, cz) = (6, 6, 6);
    let sealed = dom.idx(cx, cy, cz);
    for dz in -1..=1 {
        for dy in -1..=1 {
            for dx in -1..=1 {
                if (dx, dy, dz) != (0, 0, 0) {
                    assert!(w.paint(dom.idx(cx + dx, cy + dy, cz + dz), T_OBST));
                }
            }
        }
    }
    w.route_begin();
    assert_eq!(w.route_append(sealed), ROUTE_UNREACHABLE);
    assert_eq!(w.route_len(), 1, "a refused click leaves the route alone");
    assert_eq!(w.route_append(w.goal_cell()), ROUTE_OK);
    assert!(w.route_complete());
    let len = w.route_len();
    assert_eq!(w.route_append(dom.idx(2, 2, 2)), ROUTE_FINISHED);
    assert_eq!(w.route_len(), len);
}

#[test]
fn clicking_a_cell_already_on_the_route_rewinds_to_it() {
    let mut w = new_world("cube", 12, 0, 3, true);
    w.route_begin();
    let mid = w.dom().idx(8, 8, 8);
    assert_eq!(w.route_append(mid), ROUTE_OK);
    let route = w.route();
    assert!(route.len() > 3);
    let back = route[2];
    assert_eq!(w.route_append(back), ROUTE_OK);
    assert_eq!(w.route(), route[..3].to_vec());
}

#[test]
fn void_cells_are_exactly_those_outside_the_shape() {
    for preset in ["cube", "prism", "pyramid", "sphere", "torus"] {
        let w = new_world(preset, 14, 18, 5, false);
        let mask = w.mask().to_vec();
        for i in 0..w.len() {
            assert_eq!(mask[i as usize] == 0, w.terrain_at(i) == T_VOID, "{preset}: cell {i}");
        }
    }
}

#[test]
fn void_bytes_inside_the_shape_become_ground_and_bytes_outside_become_void() {
    let dom = Domain::preset(Preset::Sphere, 10);
    let generated = vec![T_VOID; dom.total()];
    let w = World::new("sphere", 10, 0, 1, true, generated);
    for i in 0..w.len() {
        let expect = if dom.exists[i as usize] == 1 { 1 } else { T_VOID };
        assert_eq!(w.terrain_at(i), expect);
    }
    let full = vec![7u8; dom.total()];
    let w = World::new("sphere", 10, 0, 1, true, full);
    for i in 0..w.len() {
        let expect = if dom.exists[i as usize] == 1 { 7 } else { T_VOID };
        assert_eq!(w.terrain_at(i), expect);
    }
}

#[test]
fn endpoints_stay_apart_and_off_walls_through_edits() {
    let mut w = world();
    for cell in [w.goal_cell(), w.start_cell(), 0, w.len() - 1] {
        w.set_start(cell);
        w.set_goal(cell);
        assert_ne!(w.start_cell(), w.goal_cell());
        assert_ne!(w.terrain_at(w.start_cell()), T_OBST);
        assert_ne!(w.terrain_at(w.goal_cell()), T_OBST);
    }
}

#[test]
fn a_star_and_dijkstra_agree_on_a_generated_world() {
    let mut w = new_world("torus", 12, 18, 11, false);
    let n = w.total_steps();
    w.seek(n);
    let a = (w.found(), w.cost());
    w.set_algo(ALGO_DIJKSTRA);
    let n = w.total_steps();
    w.seek(n);
    assert_eq!((w.found(), w.cost()), a);
}

#[test]
fn an_out_of_range_algorithm_id_selects_depth_first() {
    let mut w = world();
    w.set_algo(200);
    assert_eq!(w.algo(), ALGO_DFS);
}
