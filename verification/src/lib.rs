//! Volumetric pathfinding core: the shape of a voxel world, what is in it,
//! the search engine that runs over it, route scoring and cell picking.
//!
//! Index convention everywhere: `idx = x + nx*(y + ny*z)`.

pub mod domain;
pub mod heap;
pub mod pick;
pub mod route;
pub mod solver;
pub mod terrain;
pub mod world;

use vstd::prelude::*;

verus! {

/// Cell states of the search buffer.
pub const FREE: u8 = 0;
pub const OBST: u8 = 1;
pub const OPEN: u8 = 2;
pub const CLOSED: u8 = 3;
pub const PATH: u8 = 4;

/// Not part of the domain: untraversable and unrendered.
pub const T_VOID: u8 = 0;
/// Hard-blocked obstacle.
pub const T_OBST: u8 = 255;
/// Valid traversable weights are `1..=W_MAX`.
pub const W_MAX: u8 = 10;

/// Outcomes of extending a hand-drawn route.
pub const ROUTE_OK: i32 = 0;
pub const ROUTE_BLOCKED: i32 = -1;
pub const ROUTE_UNREACHABLE: i32 = -2;
pub const ROUTE_FINISHED: i32 = -3;

} // verus!
