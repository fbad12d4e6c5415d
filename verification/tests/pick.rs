use pathfind3d::domain::{Domain, Preset};
use pathfind3d::pick::snap;
use pathfind3d::T_OBST;

#[test]
fn snap_moves_off_a_wall_to_the_nearest_open_cell() {
    let dom = Domain::preset(Preset::Cube, 8);
    let mut terrain = vec![1u8; dom.total()];
    let blocked = dom.idx(4, 4, 4);
    terrain[blocked as usize] = T_OBST;
    let got = snap(&dom, &terrain, blocked, -1);
    assert!(got >= 0 && got as u32 != blocked);
    assert_ne!(terrain[got as usize], T_OBST);
}

#[test]
fn snap_will_not_land_on_the_avoided_cell() {
    let dom = Domain::preset(Preset::Cube, 8);
    let mut terrain = vec![1u8; dom.total()];
    let blocked = dom.idx(4, 4, 4);
    terrain[blocked as usize] = T_OBST;
    let neighbour = dom.idx(5, 4, 4) as i32;
    let got = snap(&dom, &terrain, blocked, neighbour);
    assert!(got >= 0);
    assert_ne!(got, neighbour);
}
