use pathfind3d::domain::Domain;
use pathfind3d::route::{connect, path_cost, validate_route};
use pathfind3d::solver::COST_ONE;
use pathfind3d::T_OBST;

#[test]
fn adjacent_steps_pass_jumps_and_obstacles_fail() {
    let dom = Domain::raw(10, 10, 10, [false; 3]);
    let mut terrain = vec![1u8; dom.total()];
    let a = dom.idx(0, 0, 0);
    let b = dom.idx(1, 0, 0);
    let far = dom.idx(5, 5, 5);
    assert!(validate_route(&dom, &terrain, &[a, b], a, b, true).is_none());
    assert!(validate_route(&dom, &terrain, &[a, far], a, far, true).is_some());
    terrain[b as usize] = T_OBST;
    assert_eq!(validate_route(&dom, &terrain, &[a, b], a, b, true), Some("route crosses an obstacle"));
}

#[test]
fn diagonal_step_is_rejected_when_diagonals_are_off() {
    let dom = Domain::raw(5, 5, 5, [false; 3]);
    let terrain = vec![1u8; dom.total()];
    let a = dom.idx(0, 0, 0);
    let b = dom.idx(1, 1, 0);
    assert!(validate_route(&dom, &terrain, &[a, b], a, b, true).is_none());
    assert_eq!(
        validate_route(&dom, &terrain, &[a, b], a, b, false),
        Some("diagonal step with diagonals off")
    );
}

#[test]
fn connect_bridges_around_a_wall_and_gives_a_legal_route() {
    let dom = Domain::raw(7, 7, 1, [false; 3]);
    let mut terrain = vec![1u8; dom.total()];
    for y in 0..6 {
        terrain[dom.idx(3, y, 0) as usize] = T_OBST;
    }
    let a = dom.idx(0, 0, 0);
    let b = dom.idx(6, 0, 0);
    let leg = connect(&dom, &terrain, a, b, true).expect("a way around the wall exists");
    assert_eq!(leg[0], a);
    assert_eq!(*leg.last().unwrap(), b);
    assert!(validate_route(&dom, &terrain, &leg, a, b, true).is_none());
}

#[test]
fn connect_reports_no_route_when_the_target_is_sealed_off() {
    let dom = Domain::raw(7, 7, 1, [false; 3]);
    let mut terrain = vec![1u8; dom.total()];
    for y in 0..7 {
        terrain[dom.idx(3, y, 0) as usize] = T_OBST;
    }
    let a = dom.idx(0, 0, 0);
    let b = dom.idx(6, 0, 0);
    assert!(connect(&dom, &terrain, a, b, true).is_none());
}

#[test]
fn wrapped_axis_makes_opposite_faces_adjacent() {
    let dom = Domain::raw(9, 3, 3, [true, false, false]);
    let terrain = vec![1u8; dom.total()];
    let a = dom.idx(0, 1, 1);
    let b = dom.idx(8, 1, 1);
    assert!(validate_route(&dom, &terrain, &[a, b], a, b, false).is_none());
    let c = path_cost(&dom, &terrain, &[a, b]).unwrap() as f64 / COST_ONE as f64;
    assert!((c - 1.0).abs() < 1e-12);
}
