//! Turning a mouse ray into a cell.
//!
//! The ray march itself samples world space; what it yields here is the
//! sequence of cells the samples fall in. From that sequence one pass picks
//! out the first wall the ray meets (what a click erases) and the open cell
//! just before it (where a click builds).

use vstd::prelude::*;

use crate::domain::Domain;
use crate::{T_OBST, T_VOID, W_MAX};

verus! {

#[derive(Clone, Copy)]
pub struct Hit {
    /// First blocked cell along the ray, or `-1`.
    pub solid: i32,
    /// Last open, existing cell before `solid` (or before the ray left the
    /// domain), or `-1`.
    pub free: i32,
    /// First existing cell of any kind, or `-1`.
    pub any: i32,
}

impl Default for Hit {
    fn default() -> (h: Hit)
        ensures
            h.solid == 0 && h.free == 0 && h.any == 0,
    {
        Hit { solid: 0, free: 0, any: 0 }
    }
}

impl Hit {
    pub fn miss() -> (h: Hit)
        ensures
            h.solid == -1 && h.free == -1 && h.any == -1,
    {
        Hit { solid: -1, free: -1, any: -1 }
    }
}

/// The ray stops at a wall, and also at any weighted cell for the weight brush.
pub open spec fn stops(t: u8, stop_weighted: bool) -> bool {
    t == T_OBST || (stop_weighted && t >= 2)
}

/// Index of the first sample that lands in an existing cell that stops the
/// ray, or the number of samples when none does.
pub open spec fn first_stop(dom: Domain, terrain: Seq<u8>, s: Seq<u32>, stop_weighted: bool) -> int
    recommends
        dom.wf(),
        terrain.len() == dom.size(),
{
    if exists|k: int|
        0 <= k < s.len() && dom.cell_exists(s[k] as int) && stops(terrain[s[k] as int], stop_weighted)
    {
        choose|k: int|
            0 <= k < s.len() && dom.cell_exists(s[k] as int) && stops(
                terrain[s[k] as int],
                stop_weighted,
            ) && forall|k2: int|
                0 <= k2 < k ==> !(dom.cell_exists(s[k2] as int) && stops(
                    terrain[s[k2] as int],
                    stop_weighted,
                ))
    } else {
        s.len() as int
    }
}

/// With the wall brush only walls stop the ray: every existing cell of
/// weight `1..=W_MAX` is one the ray passes through, and it is never where
/// the ray stops.
pub proof fn lemma_wall_brush_passes_weights(dom: Domain, terrain: Seq<u8>, s: Seq<u32>, k: int)
    requires
        dom.wf(),
        terrain.len() == dom.size(),
        0 <= k < s.len(),
        dom.cell_exists(s[k] as int),
        1 <= terrain[s[k] as int] <= W_MAX,
    ensures
        passes(dom, terrain, s, false, k),
        first_stop(dom, terrain, s, false) != k,
        forall|t: u8| stops(t, false) <==> t == T_OBST,
{
    let f = first_stop(dom, terrain, s, false);
    if exists|k1: int| 0 <= k1 < s.len() && dom.cell_exists(s[k1] as int) && stops(terrain[s[k1] as int], false) {
        let k1 = choose|k1: int|
            0 <= k1 < s.len() && dom.cell_exists(s[k1] as int) && stops(terrain[s[k1] as int], false);
        lemma_first_stop_exists(dom, terrain, s, false, k1);
    }
}

/// When some sample stops the ray, a first one does.
proof fn lemma_first_stop_exists(dom: Domain, terrain: Seq<u8>, s: Seq<u32>, sw: bool, k: int)
    requires
        0 <= k < s.len(),
        dom.cell_exists(s[k] as int),
        stops(terrain[s[k] as int], sw),
    ensures
        exists|m: int|
            0 <= m < s.len() && dom.cell_exists(s[m] as int) && stops(terrain[s[m] as int], sw) && forall|k2: int|
                0 <= k2 < m ==> !(dom.cell_exists(s[k2] as int) && stops(terrain[s[k2] as int], sw)),
    decreases k,
{
    if exists|k1: int| 0 <= k1 < k && dom.cell_exists(s[k1] as int) && stops(terrain[s[k1] as int], sw) {
        let k1 = choose|k1: int| 0 <= k1 < k && dom.cell_exists(s[k1] as int) && stops(terrain[s[k1] as int], sw);
        lemma_first_stop_exists(dom, terrain, s, sw, k1);
    } else {
        assert(forall|k2: int|
            0 <= k2 < k ==> !(dom.cell_exists(s[k2] as int) && stops(terrain[s[k2] as int], sw)));
    }
}

/// Sample `k` lands on an open cell the ray passes through.
pub open spec fn passes(dom: Domain, terrain: Seq<u8>, s: Seq<u32>, stop_weighted: bool, k: int) -> bool {
    dom.cell_exists(s[k] as int) && terrain[s[k] as int] != T_VOID && !stops(
        terrain[s[k] as int],
        stop_weighted,
    )
}

/// Resolve a ray from the cells its samples fall in, in marching order.
/// `solid` is the first existing cell that stops the ray; `free` the last
/// open cell before it; `any` the first existing cell of any kind.
pub fn scan(dom: &Domain, terrain: &[u8], samples: &[u32], stop_weighted: bool) -> (h: Hit)
    requires
        dom.wf(),
        terrain@.len() == dom.size(),
    ensures
        ({
            let s = samples@;
            let k = first_stop(*dom, terrain@, s, stop_weighted);
            &&& 0 <= k <= s.len()
            &&& forall|k2: int|
                0 <= k2 < k ==> !(dom.cell_exists(s[k2] as int) && stops(
                    terrain@[s[k2] as int],
                    stop_weighted,
                ))
            &&& (k < s.len() ==> dom.cell_exists(s[k] as int) && stops(
                terrain@[s[k] as int],
                stop_weighted,
            ) && h.solid == s[k])
            &&& (k == s.len() ==> h.solid == -1)
            &&& (h.free == -1 <==> forall|k2: int|
                0 <= k2 < k ==> !passes(*dom, terrain@, s, stop_weighted, k2))
            &&& (h.free != -1 ==> exists|k2: int|
                0 <= k2 < k && passes(*dom, terrain@, s, stop_weighted, k2) && h.free == s[k2]
                    && forall|k3: int|
                    k2 < k3 < k ==> !passes(*dom, terrain@, s, stop_weighted, k3))
            &&& (h.any == -1 <==> forall|k2: int|
                0 <= k2 < s.len() ==> !dom.cell_exists(s[k2] as int))
            &&& (h.any != -1 ==> exists|k2: int|
                0 <= k2 < s.len() && dom.cell_exists(s[k2] as int) && h.any == s[k2] && forall|
                    k3: int,
                | 0 <= k3 < k2 ==> !dom.cell_exists(s[k3] as int))
        }),
        !stop_weighted && h.solid != -1 ==> 0 <= h.solid < dom.size() && terrain@[h.solid as int] == T_OBST,
        stop_weighted && h.solid != -1 ==> 0 <= h.solid < dom.size() && (terrain@[h.solid as int] == T_OBST
            || 2 <= terrain@[h.solid as int]),
        h.free != -1 ==> 0 <= h.free < dom.size() && terrain@[h.free as int] != T_OBST && terrain@[h.free as int]
            != T_VOID && (stop_weighted ==> terrain@[h.free as int] == 1),
        h.solid != -1 && h.free != -1 ==> h.solid != h.free,
{
    let ghost s = samples@;
    let mut hit = Hit::miss();
    let mut last = u32::MAX;
    let mut i: usize = 0;
    let ghost mut free_at: int = -1;
    let ghost mut any_at: int = -1;
    while i < samples.len()
        invariant
            dom.wf(),
            terrain@.len() == dom.size(),
            s == samples@,
            i <= s.len(),
            hit.solid == -1,
            forall|k2: int|
                0 <= k2 < i ==> !(dom.cell_exists(s[k2] as int) && stops(
                    terrain@[s[k2] as int],
                    stop_weighted,
                )),
            hit.free == -1 <==> free_at == -1,
            free_at == -1 ==> forall|k2: int|
                0 <= k2 < i ==> !passes(*dom, terrain@, s, stop_weighted, k2),
            free_at != -1 ==> 0 <= free_at < i && passes(*dom, terrain@, s, stop_weighted, free_at)
                && hit.free == s[free_at] && forall|k3: int|
                free_at < k3 < i ==> !passes(*dom, terrain@, s, stop_weighted, k3),
            hit.any == -1 <==> any_at == -1,
            any_at == -1 ==> forall|k2: int| 0 <= k2 < i ==> !dom.cell_exists(s[k2] as int),
            any_at != -1 ==> 0 <= any_at < i && dom.cell_exists(s[any_at] as int) && hit.any
                == s[any_at] && forall|k3: int| 0 <= k3 < any_at ==> !dom.cell_exists(s[k3] as int),
            last != u32::MAX ==> dom.cell_exists(last as int) && !stops(
                terrain@[last as int],
                stop_weighted,
            ) && any_at != -1 && (terrain@[last as int] != T_VOID ==> hit.free == last
                && free_at != -1),
        decreases s.len() - i,
    {
        let cell = samples[i];
        if cell == last || !dom.exists_at(cell) {
            proof {
                if cell == last && passes(*dom, terrain@, s, stop_weighted, i as int) {
                    free_at = i as int;
                }
            }
            i += 1;
            continue;
        }
        last = cell;
        if hit.any < 0 {
            hit.any = cell as i32;
            proof {
                any_at = i as int;
            }
        }
        let t = terrain[cell as usize];
        if t == T_VOID {
            i += 1;
            continue;
        }
        if t == T_OBST || (stop_weighted && t >= 2) {
            hit.solid = cell as i32;
            proof {
                assert(first_stop(*dom, terrain@, s, stop_weighted) == i);
            }
            return hit;
        }
        hit.free = cell as i32;
        proof {
            free_at = i as int;
        }
        i += 1;
    }
    proof {
        assert(first_stop(*dom, terrain@, s, stop_weighted) == s.len());
    }
    hit
}

} // verus!

verus! {

/// A `u32` cell index reinterpreted as `i32`.
pub open spec fn signed_of(c: u32) -> int {
    if c <= i32::MAX {
        c as int
    } else {
        c - 0x1_0000_0000
    }
}

/// Division truncating toward zero.
pub open spec fn tdiv(a: int, d: int) -> int {
    if a >= 0 {
        a / d
    } else {
        -((-a) / d)
    }
}

/// Remainder taking the sign of the dividend.
pub open spec fn trem(a: int, d: int) -> int {
    if a >= 0 {
        a % d
    } else {
        -((-a) % d)
    }
}

/// Grid coordinates of any index, in range or not, as `coords` computes them.
pub open spec fn raw_coords(dom: Domain, c: u32) -> (int, int, int) {
    let i = signed_of(c);
    (trem(i, dom.nx as int), trem(tdiv(i, dom.nx as int), dom.ny as int), tdiv(i, dom.nx * dom.ny))
}

/// Offset `j` of the `(2r+1)^3` cube scanned at radius `r`, x varying fastest.
pub open spec fn shell_offset(r: int, j: int) -> (int, int, int) {
    let s = 2 * r + 1;
    (j % s - r, (j / s) % s - r, j / (s * s) - r)
}

pub open spec fn dist2(o: (int, int, int)) -> int {
    o.0 * o.0 + o.1 * o.1 + o.2 * o.2
}

pub open spec fn on_shell(r: int, o: (int, int, int)) -> bool {
    crate::domain::max_int(crate::domain::max_int(abs_i(o.0), abs_i(o.1)), abs_i(o.2)) == r
}

pub open spec fn abs_i(v: int) -> int {
    if v < 0 {
        -v
    } else {
        v
    }
}

/// Where offset `o` from `cell` folds to, if it stays on the grid.
pub open spec fn landing(dom: Domain, cell: u32, o: (int, int, int)) -> Option<int> {
    let (x, y, z) = raw_coords(dom, cell);
    match (dom.fold_spec(x + o.0, 0), dom.fold_spec(y + o.1, 1), dom.fold_spec(z + o.2, 2)) {
        (Some(a), Some(b), Some(c)) => Some(dom.index_of(a, b, c)),
        _ => None,
    }
}

/// An endpoint may land on an existing, unblocked cell other than `avoid`.
pub open spec fn snap_ok(dom: Domain, terrain: Seq<u8>, j: int, avoid: i32) -> bool {
    dom.cell_exists(j) && terrain[j] != T_OBST && j != avoid
}

/// Scan position `j` at radius `r` is on the shell and lands on a usable cell.
pub open spec fn candidate(dom: Domain, terrain: Seq<u8>, cell: u32, avoid: i32, r: int, j: int) -> bool {
    let o = shell_offset(r, j);
    &&& 0 <= j < (2 * r + 1) * (2 * r + 1) * (2 * r + 1)
    &&& on_shell(r, o)
    &&& landing(dom, cell, o) is Some
    &&& snap_ok(dom, terrain, landing(dom, cell, o).unwrap(), avoid)
}

/// `j` is the first of the nearest candidates on shell `r`.
pub open spec fn best_on_shell(dom: Domain, terrain: Seq<u8>, cell: u32, avoid: i32, r: int, j: int) -> bool {
    &&& candidate(dom, terrain, cell, avoid, r, j)
    &&& forall|j2: int|
        #[trigger] candidate(dom, terrain, cell, avoid, r, j2) ==> dist2(shell_offset(r, j)) < dist2(
            shell_offset(r, j2),
        ) || (dist2(shell_offset(r, j)) == dist2(shell_offset(r, j2)) && j <= j2)
}

pub open spec fn shell_empty(dom: Domain, terrain: Seq<u8>, cell: u32, avoid: i32, r: int) -> bool {
    forall|j: int| !#[trigger] candidate(dom, terrain, cell, avoid, r, j)
}

fn coords_any(dom: &Domain, cell: u32) -> (c: (i64, i64, i64))
    requires
        dom.dims_ok(),
    ensures
        (c.0 as int, c.1 as int, c.2 as int) == raw_coords(*dom, cell),
        -0x8000_0000 <= c.0 <= 0x8000_0000,
        -0x8000_0000 <= c.1 <= 0x8000_0000,
        -0x8000_0000 <= c.2 <= 0x8000_0000,
{
    let i: i64 = if cell <= 0x7fff_ffff {
        cell as i64
    } else {
        cell as i64 - 0x1_0000_0000
    };
    let nx = dom.nx as i64;
    proof {
        assert(1 <= dom.nx * dom.ny <= dom.nx * dom.ny * dom.nz) by (nonlinear_arith)
            requires
                1 <= dom.nx,
                1 <= dom.ny,
                1 <= dom.nz,
        ;
    }
    let nxy = (dom.nx as i64) * (dom.ny as i64);
    let ny = dom.ny as i64;
    let a = if i >= 0 {
        i
    } else {
        -i
    };
    proof {
        vstd::arithmetic::div_mod::lemma_div_pos_is_pos(a as int, nx as int);
        vstd::arithmetic::div_mod::lemma_div_is_ordered_by_denominator(a as int, 1, nx as int);
        vstd::arithmetic::div_mod::lemma_div_pos_is_pos(a as int, nxy as int);
        vstd::arithmetic::div_mod::lemma_div_is_ordered_by_denominator(a as int, 1, nxy as int);
        vstd::arithmetic::div_mod::lemma_mod_pos_bound(a as int, nx as int);
        vstd::arithmetic::div_mod::lemma_mod_pos_bound(a as int / nx as int, ny as int);
        vstd::arithmetic::div_mod::lemma_div_pos_is_pos(a as int / nx as int, ny as int);
    }
    let q = a / nx;
    let qq = a / nxy;
    let x = a % nx;
    let y = q % ny;
    proof {
        if q == 0 {
            assert(y == 0);
        }
    }
    if i >= 0 {
        (x, y, qq)
    } else {
        (-x, -y, -qq)
    }
}

/// Scan position `j` of shell `rad`: the cell it lands on and its squared
/// offset, when it is a candidate.
fn shell_probe(
    dom: &Domain,
    terrain: &[u8],
    cell: u32,
    cx: i64,
    cy: i64,
    cz: i64,
    avoid: i32,
    rad: i32,
    s: i32,
    j: i32,
) -> (r: Option<(i32, i32)>)
    requires
        dom.wf(),
        terrain@.len() == dom.size(),
        (cx as int, cy as int, cz as int) == raw_coords(*dom, cell),
        -0x8000_0000 <= cx <= 0x8000_0000,
        -0x8000_0000 <= cy <= 0x8000_0000,
        -0x8000_0000 <= cz <= 0x8000_0000,
        1 <= rad <= 6,
        s == 2 * rad + 1,
        0 <= j < s * s * s,
    ensures
        r is Some <==> candidate(*dom, terrain@, cell, avoid, rad as int, j as int),
        r matches Some((k, dd)) ==> k == landing(*dom, cell, shell_offset(rad as int, j as int)).unwrap()
            && dd == dist2(shell_offset(rad as int, j as int)) && 0 <= dd <= 108,
{
    proof {
        assert(1 <= s * s <= 169) by (nonlinear_arith)
            requires
                3 <= s <= 13,
        ;
        let ss = s * s;
        vstd::arithmetic::div_mod::lemma_mod_pos_bound(j as int, s as int);
        vstd::arithmetic::div_mod::lemma_div_pos_is_pos(j as int, s as int);
        vstd::arithmetic::div_mod::lemma_mod_pos_bound(j as int / s as int, s as int);
        vstd::arithmetic::div_mod::lemma_div_pos_is_pos(j as int, ss as int);
        vstd::arithmetic::div_mod::lemma_fundamental_div_mod(j as int, ss as int);
        vstd::arithmetic::div_mod::lemma_mod_pos_bound(j as int, ss as int);
        assert(j as int / ss < s) by (nonlinear_arith)
            requires
                j == ss * (j as int / ss) + j as int % ss,
                0 <= j as int % ss,
                j < ss * s,
                ss >= 1,
        ;
    }
    let dx = j % s - rad;
    let dy = (j / s) % s - rad;
    let dz = j / (s * s) - rad;
    let ghost o = shell_offset(rad as int, j as int);
    assert(o == (dx as int, dy as int, dz as int));
    assert(-6 <= dx <= 6 && -6 <= dy <= 6 && -6 <= dz <= 6);
    let adx = if dx < 0 {
        -dx
    } else {
        dx
    };
    let ady = if dy < 0 {
        -dy
    } else {
        dy
    };
    let adz = if dz < 0 {
        -dz
    } else {
        dz
    };
    let m = if adx > ady {
        adx
    } else {
        ady
    };
    let m = if m > adz {
        m
    } else {
        adz
    };
    if m != rad {
        return None;
    }
    let fx = dom.fold_wide(cx + dx as i64, 0);
    let fy = dom.fold_wide(cy + dy as i64, 1);
    let fz = dom.fold_wide(cz + dz as i64, 2);
    match (fx, fy, fz) {
        (Some(x), Some(y), Some(z)) => {
            let k = dom.idx(x, y, z);
            if dom.exists_at(k) && terrain[k as usize] != T_OBST && k as i32 != avoid {
                proof {
                    assert(0 <= dx * dx <= 36 && 0 <= dy * dy <= 36 && 0 <= dz * dz <= 36)
                        by (nonlinear_arith)
                        requires
                            -6 <= dx <= 6,
                            -6 <= dy <= 6,
                            -6 <= dz <= 6,
                    ;
                }
                Some((k as i32, dx * dx + dy * dy + dz * dz))
            } else {
                None
            }
        },
        _ => None,
    }
}

/// Every component of the offset `o` lies within `r` of zero.
pub open spec fn within(o: (int, int, int), r: int) -> bool {
    -r <= o.0 <= r && -r <= o.1 <= r && -r <= o.2 <= r
}

/// Where offset `o` comes in the scan of the cube of radius `r`.
spec fn shell_index(r: int, o: (int, int, int)) -> int {
    let s = 2 * r + 1;
    (o.0 + r) + s * (o.1 + r) + s * s * (o.2 + r)
}

/// Every offset of the cube of radius `r` is scanned, at `shell_index`.
proof fn lemma_shell_index(r: int, o: (int, int, int))
    requires
        r >= 1,
        within(o, r),
    ensures
        0 <= shell_index(r, o) < (2 * r + 1) * (2 * r + 1) * (2 * r + 1),
        shell_offset(r, shell_index(r, o)) == o,
{
    let s = 2 * r + 1;
    let (a, b, c) = (o.0 + r, o.1 + r, o.2 + r);
    let j = shell_index(r, o);
    assert(j == (b + s * c) * s + a) by (nonlinear_arith)
        requires
            j == a + s * b + s * s * c,
    ;
    vstd::arithmetic::div_mod::lemma_fundamental_div_mod_converse(j, s, b + s * c, a);
    vstd::arithmetic::div_mod::lemma_fundamental_div_mod_converse(b + s * c, s, c, b);
    assert(0 <= a + s * b < s * s && j == c * (s * s) + (a + s * b)) by (nonlinear_arith)
        requires
            0 <= a < s,
            0 <= b < s,
            j == a + s * b + s * s * c,
    ;
    vstd::arithmetic::div_mod::lemma_fundamental_div_mod_converse(j, s * s, c, a + s * b);
    assert(0 <= j < s * s * s) by (nonlinear_arith)
        requires
            0 <= a < s,
            0 <= b < s,
            0 <= c < s,
            j == a + s * b + s * s * c,
    ;
}

/// Snapping lands on a nearest usable cell. When the clicked cell is not
/// usable and a cell is found, it sits at an offset `o` from the click whose
/// largest component (in size) is `rad`; no usable cell sits at a nonzero
/// offset with every component smaller than `rad`; and no usable cell whose
/// offset has largest component `rad` is nearer in squared Euclidean
/// distance `dx*dx + dy*dy + dz*dz`.
pub proof fn lemma_snap_nearest(dom: Domain, terrain: Seq<u8>, cell: u32, avoid: i32, r: i32) -> (w: (
    int,
    (int, int, int),
))
    requires
        snapped(dom, terrain, cell, avoid, r),
        r != -1,
        !(cell < dom.size() && snap_ok(dom, terrain, cell as int, avoid)),
    ensures
        1 <= w.0 <= 6,
        within(w.1, w.0) && !within(w.1, w.0 - 1),
        landing(dom, cell, w.1) == Some(r as int),
        snap_ok(dom, terrain, r as int, avoid),
        forall|o2: (int, int, int)|
            within(o2, w.0 - 1) && o2 != (0int, 0int, 0int) && #[trigger] landing(dom, cell, o2) is Some ==> !snap_ok(
                dom,
                terrain,
                landing(dom, cell, o2).unwrap(),
                avoid,
            ),
        forall|o2: (int, int, int)|
            within(o2, w.0) && !within(o2, w.0 - 1) && #[trigger] landing(dom, cell, o2) is Some && snap_ok(
                dom,
                terrain,
                landing(dom, cell, o2).unwrap(),
                avoid,
            ) ==> w.1.0 * w.1.0 + w.1.1 * w.1.1 + w.1.2 * w.1.2 <= o2.0 * o2.0 + o2.1 * o2.1 + o2.2 * o2.2,
{
    let (rad, j) = choose|rad: int, j: int|
        1 <= rad <= 6 && best_on_shell(dom, terrain, cell, avoid, rad, j) && r == landing(
            dom,
            cell,
            shell_offset(rad, j),
        ).unwrap() && forall|rad2: int| 1 <= rad2 < rad ==> shell_empty(dom, terrain, cell, avoid, rad2);
    let o = shell_offset(rad, j);
    assert(candidate(dom, terrain, cell, avoid, rad, j));
    assert forall|o2: (int, int, int)|
        within(o2, rad - 1) && o2 != (0int, 0int, 0int) && #[trigger] landing(dom, cell, o2) is Some implies !snap_ok(
            dom,
            terrain,
            landing(dom, cell, o2).unwrap(),
            avoid,
        ) by {
        let rad2 = crate::domain::max_int(crate::domain::max_int(abs_i(o2.0), abs_i(o2.1)), abs_i(o2.2));
        assert(1 <= rad2 < rad);
        lemma_shell_index(rad2, o2);
        let j2 = shell_index(rad2, o2);
        assert(shell_empty(dom, terrain, cell, avoid, rad2));
        assert(!candidate(dom, terrain, cell, avoid, rad2, j2));
    }
    assert forall|o2: (int, int, int)|
        within(o2, rad) && !within(o2, rad - 1) && #[trigger] landing(dom, cell, o2) is Some && snap_ok(
            dom,
            terrain,
            landing(dom, cell, o2).unwrap(),
            avoid,
        ) implies o.0 * o.0 + o.1 * o.1 + o.2 * o.2 <= o2.0 * o2.0 + o2.1 * o2.1 + o2.2 * o2.2 by {
        lemma_shell_index(rad, o2);
        let j2 = shell_index(rad, o2);
        assert(candidate(dom, terrain, cell, avoid, rad, j2));
    }
    (rad, o)
}

/// What snapping `cell` away from `avoid` gives: the cell itself when it
/// is usable, else the best usable cell on the nearest shell that has one,
/// else `-1` when every shell within reach is empty.
pub open spec fn snapped(dom: Domain, terrain: Seq<u8>, cell: u32, avoid: i32, r: i32) -> bool {
    &&& cell < dom.size() && snap_ok(dom, terrain, cell as int, avoid) ==> r == cell
    &&& !(cell < dom.size() && snap_ok(dom, terrain, cell as int, avoid)) ==> {
        ||| (r == -1 && forall|rad: int| 1 <= rad <= 6 ==> shell_empty(dom, terrain, cell, avoid, rad))
        ||| exists|rad: int, j: int|
            1 <= rad <= 6 && best_on_shell(dom, terrain, cell, avoid, rad, j) && r == landing(
                dom,
                cell,
                shell_offset(rad, j),
            ).unwrap() && forall|rad2: int| 1 <= rad2 < rad ==> shell_empty(dom, terrain, cell, avoid, rad2)
    }
    &&& r == -1 || snap_ok(dom, terrain, r as int, avoid)
}

/// Nearest existing, unblocked cell to `cell`, searched in growing shells.
/// `avoid` keeps the two endpoints from landing on each other. `-1` when
/// nothing suitable is within reach.
pub fn snap(dom: &Domain, terrain: &[u8], cell: u32, avoid: i32) -> (r: i32)
    requires
        dom.wf(),
        terrain@.len() == dom.size(),
    ensures
        snapped(*dom, terrain@, cell, avoid, r),
{
    if (cell as usize) < dom.total() && dom.exists_at(cell) && terrain[cell as usize] != T_OBST
        && cell as i32 != avoid {
        return cell as i32;
    }
    let (cx, cy, cz) = coords_any(dom, cell);
    let mut rad: i32 = 1;
    while rad <= 6
        invariant
            dom.wf(),
            terrain@.len() == dom.size(),
            !(cell < dom.size() && snap_ok(*dom, terrain@, cell as int, avoid)),
            (cx as int, cy as int, cz as int) == raw_coords(*dom, cell),
            -0x8000_0000 <= cx <= 0x8000_0000,
            -0x8000_0000 <= cy <= 0x8000_0000,
            -0x8000_0000 <= cz <= 0x8000_0000,
            1 <= rad <= 7,
            forall|rad2: int| 1 <= rad2 < rad ==> shell_empty(*dom, terrain@, cell, avoid, rad2),
        decreases 7 - rad,
    {
        let s: i32 = 2 * rad + 1;
        proof {
            assert(s * s <= 169 && s * s * s <= 2197 && 1 <= s * s) by (nonlinear_arith)
                requires
                    3 <= s <= 13,
            ;
        }
        let n: i32 = s * s * s;
        let mut best: i32 = -1;
        let mut best_d: i32 = i32::MAX;
        let ghost mut best_j: int = -1;
        let mut j: i32 = 0;
        while j < n
            invariant
                dom.wf(),
                terrain@.len() == dom.size(),
                (cx as int, cy as int, cz as int) == raw_coords(*dom, cell),
                -0x8000_0000 <= cx <= 0x8000_0000,
                -0x8000_0000 <= cy <= 0x8000_0000,
                -0x8000_0000 <= cz <= 0x8000_0000,
                1 <= rad <= 6,
                s == 2 * rad + 1,
                n == s * s * s,
                1 <= s * s <= 169,
                0 <= j <= n,
                best == -1 <==> best_j == -1,
                best_j == -1 ==> best_d == i32::MAX,
                best_j == -1 ==> forall|j2: int|
                    0 <= j2 < j ==> !#[trigger] candidate(*dom, terrain@, cell, avoid, rad as int, j2),
                best_j != -1 ==> {
                    &&& 0 <= best_j < j
                    &&& candidate(*dom, terrain@, cell, avoid, rad as int, best_j)
                    &&& best == landing(*dom, cell, shell_offset(rad as int, best_j)).unwrap()
                    &&& best_d == dist2(shell_offset(rad as int, best_j))
                    &&& forall|j2: int|
                        0 <= j2 < j && #[trigger] candidate(*dom, terrain@, cell, avoid, rad as int, j2)
                            ==> best_d < dist2(shell_offset(rad as int, j2)) || (best_d == dist2(
                            shell_offset(rad as int, j2),
                        ) && best_j <= j2)
                },
            decreases n - j,
        {
            match shell_probe(dom, terrain, cell, cx, cy, cz, avoid, rad, s, j) {
                Some((k, dd)) => {
                    if dd < best_d {
                        best_d = dd;
                        best = k;
                        proof {
                            best_j = j as int;
                        }
                    }
                },
                None => {},
            }
            j += 1;
        }
        if best >= 0 {
            proof {
                assert(best_on_shell(*dom, terrain@, cell, avoid, rad as int, best_j));
            }
            return best;
        }
        proof {
            assert forall|j2: int| !#[trigger] candidate(*dom, terrain@, cell, avoid, rad as int, j2) by {
            }
        }
        rad += 1;
    }
    -1
}

} // verus!
