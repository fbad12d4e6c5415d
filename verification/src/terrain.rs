//! World generation and the terrain byte encoding.
//!
//! Terrain bytes: `T_VOID` outside the domain mask, `1..=W_MAX` = a cell of
//! that weight, `T_OBST` = a wall. Everything comes from one seeded PRNG, so
//! a seed reproduces a world exactly.

use vstd::prelude::*;

use crate::domain::Domain;
use crate::{T_OBST, T_VOID, W_MAX};

verus! {

/// Increment of the mulberry32 state per draw.
pub const RNG_STEP: u32 = 0x6D2B_79F5;

/// The mulberry32 output word for a state that has just been advanced.
pub open spec fn mulberry(a: u32) -> u32 {
    let t = (a ^ (a >> 15u32)).wrapping_mul(1u32 | a);
    let t = t.wrapping_add((t ^ (t >> 7u32)).wrapping_mul(61u32 | t)) ^ t;
    t ^ (t >> 14u32)
}

/// `(w / 2^32 * n)` truncated toward zero, for a word `w`.
pub open spec fn scale_word(w: u32, n: int) -> int {
    if n >= 0 {
        (w * n) / 0x1_0000_0000
    } else {
        -((w * (-n)) / 0x1_0000_0000)
    }
}

/// The mulberry32 generator, word for word the standard stream, so a seed
/// always produces the same world.
pub struct Rng {
    a: u32,
}

impl Rng {
    pub closed spec fn state(&self) -> u32 {
        self.a
    }

    pub fn new(seed: u32) -> (r: Rng)
        ensures
            r.state() == seed,
    {
        Rng { a: seed }
    }

    /// Next 32-bit output; the unit-interval value is this word over `2^32`.
    pub fn next_word(&mut self) -> (w: u32)
        ensures
            final(self).state() == old(self).state().wrapping_add(RNG_STEP),
            w == mulberry(final(self).state()),
    {
        self.a = self.a.wrapping_add(RNG_STEP);
        let a = self.a;
        let mut t = (a ^ (a >> 15)).wrapping_mul(1 | a);
        t = t.wrapping_add((t ^ (t >> 7)).wrapping_mul(61 | t)) ^ t;
        t ^ (t >> 14)
    }

    /// `(rnd() * n) | 0`: the next unit value times `n`, truncated toward zero.
    pub fn below(&mut self, n: i32) -> (r: i32)
        ensures
            final(self).state() == old(self).state().wrapping_add(RNG_STEP),
            r == scale_word(mulberry(final(self).state()), n as int),
            n > 0 ==> 0 <= r < n,
            n <= 0 ==> n < r <= 0 || r == 0,
    {
        let w = self.next_word() as u64;
        if n >= 0 {
            proof {
                assert(w * n <= 0x1_0000_0000 * 0x8000_0000) by (nonlinear_arith)
                    requires
                        w < 0x1_0000_0000,
                        0 <= n <= 0x7fff_ffff,
                ;
            }
            let p = w * (n as u64);
            proof {
                assert(p / 0x1_0000_0000 < n || n == 0) by (nonlinear_arith)
                    requires
                        p == w * n,
                        w < 0x1_0000_0000,
                        n >= 0,
                ;
                assert(0 <= p / 0x1_0000_0000) by (nonlinear_arith)
                    requires
                        p >= 0,
                ;
            }
            (p / 0x1_0000_0000) as i32
        } else {
            let m = (-(n as i64)) as u64;
            proof {
                assert(w * m <= 0x1_0000_0000 * 0x8000_0000) by (nonlinear_arith)
                    requires
                        w < 0x1_0000_0000,
                        m <= 0x8000_0000,
                ;
            }
            let p = w * m;
            proof {
                assert(p / 0x1_0000_0000 < m) by (nonlinear_arith)
                    requires
                        p == w * m,
                        w < 0x1_0000_0000,
                        m >= 1,
                ;
                assert(0 <= p / 0x1_0000_0000) by (nonlinear_arith)
                    requires
                        p >= 0,
                ;
            }
            -((p / 0x1_0000_0000) as i64) as i32
        }
    }

    /// `rnd() < num / den`, decided exactly on the next word.
    pub fn chance(&mut self, num: u64, den: u64) -> (b: bool)
        requires
            num <= 0x1_0000_0000,
            den <= 0x1_0000_0000,
        ensures
            final(self).state() == old(self).state().wrapping_add(RNG_STEP),
            b == (mulberry(final(self).state()) * den < num * 0x1_0000_0000),
    {
        let w = self.next_word() as u128;
        proof {
            assert(w * den <= 0x1_0000_0000 * 0x1_0000_0000) by (nonlinear_arith)
                requires
                    w < 0x1_0000_0000,
                    den <= 0x1_0000_0000,
            ;
        }
        w * (den as u128) < (num as u128) * 0x1_0000_0000
    }
}

/// Word `k` (counting from zero) of the stream a seed starts.
pub open spec fn stream_word(seed: u32, k: nat) -> u32 {
    mulberry(advanced(seed, k + 1))
}

/// A generator made from `seed` that has drawn `k` words draws word `k` of
/// the seed's stream next, and has then drawn `k + 1`.
pub proof fn lemma_next_in_stream(seed: u32, k: nat, before: u32, after: u32, w: u32)
    requires
        before == advanced(seed, k),
        after == before.wrapping_add(RNG_STEP),
        w == mulberry(after),
    ensures
        after == advanced(seed, k + 1),
        w == stream_word(seed, k),
{
    lemma_advanced_step(seed, k);
}

/// Clamp stray bytes into the encoding: void and obstacle markers survive,
/// everything else becomes a weight in `1..=W_MAX`.
pub open spec fn sanitized(t: u8) -> u8 {
    if t == T_VOID || t == T_OBST {
        t
    } else if t > W_MAX {
        W_MAX
    } else {
        t
    }
}

/// A byte of the terrain encoding: void, a wall, or a weight in `1..=W_MAX`.
pub open spec fn valid_byte(t: u8) -> bool {
    t == T_VOID || t == T_OBST || (1 <= t <= W_MAX)
}

pub fn sanitize(terrain: &mut [u8])
    ensures
        final(terrain)@.len() == old(terrain)@.len(),
        forall|i: int|
            0 <= i < old(terrain)@.len() ==> #[trigger] final(terrain)@[i] == sanitized(
                old(terrain)@[i],
            ),
{
    let n = terrain.len();
    let mut i: usize = 0;
    while i < n
        invariant
            n == terrain@.len(),
            terrain@.len() == old(terrain)@.len(),
            i <= n,
            forall|j: int| 0 <= j < i ==> #[trigger] terrain@[j] == sanitized(old(terrain)@[j]),
            forall|j: int| i <= j < n ==> #[trigger] terrain@[j] == old(terrain)@[j],
        decreases n - i,
    {
        let t = terrain[i];
        if !(t == T_VOID || t == T_OBST) && t > W_MAX {
            terrain[i] = W_MAX;
        }
        i += 1;
    }
}

/// The endpoints themselves must never be obstacles. Void endpoints stay
/// void: that is "no path".
pub fn free_endpoints(terrain: &mut [u8], start: u32, goal: u32)
    ensures
        final(terrain)@.len() == old(terrain)@.len(),
        forall|i: int|
            0 <= i < old(terrain)@.len() ==> #[trigger] final(terrain)@[i] == if (i == start
                || i == goal) && old(terrain)@[i] == T_OBST {
                1u8
            } else {
                old(terrain)@[i]
            },
{
    let s = start as usize;
    if s < terrain.len() && terrain[s] == T_OBST {
        terrain[s] = 1;
    }
    let g = goal as usize;
    if g < terrain.len() && terrain[g] == T_OBST {
        terrain[g] = 1;
    }
}

} // verus!

verus! {

/// Cells within one wrap-aware step of `c` on every axis (including `c`).
pub open spec fn near(dom: Domain, c: int, i: int) -> bool {
    dom.delta(c, i, 0) <= 1 && dom.delta(c, i, 1) <= 1 && dom.delta(c, i, 2) <= 1
}

/// The `j`-th offset of the 3x3x3 stencil, x varying fastest.
pub open spec fn stencil(j: int) -> (int, int, int) {
    (j % 3 - 1, (j / 3) % 3 - 1, j / 9 - 1)
}

/// Stencil offset `j` from cell `c` folds onto cell `i`.
pub open spec fn lands(dom: Domain, c: int, j: int, i: int) -> bool {
    let (dx, dy, dz) = stencil(j);
    match (
        dom.fold_spec(dom.coord(c, 0) + dx, 0),
        dom.fold_spec(dom.coord(c, 1) + dy, 1),
        dom.fold_spec(dom.coord(c, 2) + dz, 2),
    ) {
        (Some(x), Some(y), Some(z)) => dom.index_of(x, y, z) == i,
        _ => false,
    }
}

pub proof fn lemma_near_iff_lands(dom: Domain, c: int, i: int)
    requires
        dom.wf(),
        0 <= c < dom.size(),
        0 <= i < dom.size(),
    ensures
        near(dom, c, i) <==> exists|j: int| 0 <= j < 27 && #[trigger] lands(dom, c, j, i),
{
    dom.lemma_coords(c);
    dom.lemma_coords(i);
    let (x, y, z) = (dom.coord(c, 0), dom.coord(c, 1), dom.coord(c, 2));
    if near(dom, c, i) {
        let mx = dom.lemma_move_exists(0, x, dom.coord(i, 0));
        let my = dom.lemma_move_exists(1, y, dom.coord(i, 1));
        let mz = dom.lemma_move_exists(2, z, dom.coord(i, 2));
        let j = (mx + 1) + 3 * (my + 1) + 9 * (mz + 1);
        assert(stencil(j) == (mx, my, mz));
        assert(lands(dom, c, j, i));
    }
    assert forall|j: int| 0 <= j < 27 && #[trigger] lands(dom, c, j, i) implies near(dom, c, i) by {
        let (dx, dy, dz) = stencil(j);
        dom.lemma_fold_move(0, x, dx);
        dom.lemma_fold_move(1, y, dy);
        dom.lemma_fold_move(2, z, dz);
        let (a, b, cc) = (
            dom.fold_spec(x + dx, 0).unwrap(),
            dom.fold_spec(y + dy, 1).unwrap(),
            dom.fold_spec(z + dz, 2).unwrap(),
        );
        dom.lemma_index_of(a, b, cc);
    }
}

/// The last stage of generation: carve both endpoint neighbourhoods back
/// to clean weight-1 ground, so neither endpoint starts inside a wall, on
/// heavy ground or sealed in.
pub fn carve_endpoints(dom: &Domain, terrain: &mut [u8])
    requires
        dom.wf(),
        old(terrain)@.len() == dom.size(),
    ensures
        final(terrain)@.len() == old(terrain)@.len(),
        forall|i: int|
            0 <= i < dom.size() ==> #[trigger] final(terrain)@[i] == if dom.cell_exists(i) && (near(*dom, dom.start as int, i)
                || near(*dom, dom.goal as int, i)) {
                1u8
            } else {
                old(terrain)@[i]
            },
        dom.cell_exists(dom.start as int) ==> final(terrain)@[dom.start as int] == 1,
        dom.cell_exists(dom.goal as int) ==> final(terrain)@[dom.goal as int] == 1,
{
    carve(dom, terrain, dom.start);
    carve(dom, terrain, dom.goal);
}

/// Reset a cell and its (wrap-aware) 26-neighbourhood to clean weight-1
/// ground, so an endpoint can never sit inside a wall or be sealed in.
pub fn carve(dom: &Domain, terrain: &mut [u8], cell: u32)
    requires
        dom.wf(),
        old(terrain)@.len() == dom.size(),
        cell < dom.size(),
    ensures
        final(terrain)@.len() == old(terrain)@.len(),
        forall|i: int|
            0 <= i < dom.size() ==> #[trigger] final(terrain)@[i] == if dom.cell_exists(i) && near(
                *dom,
                cell as int,
                i,
            ) {
                1u8
            } else {
                old(terrain)@[i]
            },
{
    let (cx, cy, cz) = dom.coords(cell);
    let mut k: i32 = 0;
    while k < 27
        invariant
            dom.wf(),
            cell < dom.size(),
            (cx as int, cy as int, cz as int) == (
                dom.coord(cell as int, 0),
                dom.coord(cell as int, 1),
                dom.coord(cell as int, 2),
            ),
            dom.in_box(cx as int, cy as int, cz as int),
            0 <= k <= 27,
            terrain@.len() == dom.size(),
            forall|i: int|
                0 <= i < dom.size() ==> #[trigger] terrain@[i] == if dom.cell_exists(i) && (exists|
                    j: int,
                | 0 <= j < k && #[trigger] lands(*dom, cell as int, j, i)) {
                    1u8
                } else {
                    old(terrain)@[i]
                },
        decreases 27 - k,
    {
        let (dx, dy, dz) = (k % 3 - 1, (k / 3) % 3 - 1, k / 9 - 1);
        assert(stencil(k as int) == (dx as int, dy as int, dz as int));
        let fx = dom.fold(cx + dx, 0);
        let fy = dom.fold(cy + dy, 1);
        let fz = dom.fold(cz + dz, 2);
        let ghost before = terrain@;
        match (fx, fy, fz) {
            (Some(x), Some(y), Some(z)) => {
                let i = dom.idx(x, y, z) as usize;
                assert(lands(*dom, cell as int, k as int, i as int));
                if dom.exists[i] == 1 {
                    terrain[i] = 1;
                }
                assert forall|i2: int| 0 <= i2 < dom.size() implies #[trigger] terrain@[i2] == if dom.cell_exists(i2) && (exists|
                    j: int,
                | 0 <= j < k + 1 && #[trigger] lands(*dom, cell as int, j, i2)) {
                    1u8
                } else {
                    old(terrain)@[i2]
                } by {
                    if lands(*dom, cell as int, k as int, i2) {
                        assert(i2 == i);
                    }
                    if exists|j: int| 0 <= j < k && #[trigger] lands(*dom, cell as int, j, i2) {
                        let j = choose|j: int| 0 <= j < k && #[trigger] lands(*dom, cell as int, j, i2);
                        assert(0 <= j < k + 1 && lands(*dom, cell as int, j, i2));
                    }
                    if exists|j: int| 0 <= j < k + 1 && #[trigger] lands(*dom, cell as int, j, i2) {
                        let j = choose|j: int| 0 <= j < k + 1 && #[trigger] lands(*dom, cell as int, j, i2);
                        if j < k {
                            assert(0 <= j < k && lands(*dom, cell as int, j, i2));
                        }
                    }
                }
            },
            _ => {
                assert forall|i2: int| 0 <= i2 < dom.size() implies #[trigger] terrain@[i2] == if dom.cell_exists(i2) && (exists|
                    j: int,
                | 0 <= j < k + 1 && #[trigger] lands(*dom, cell as int, j, i2)) {
                    1u8
                } else {
                    old(terrain)@[i2]
                } by {
                    assert(!lands(*dom, cell as int, k as int, i2));
                    if exists|j: int| 0 <= j < k && #[trigger] lands(*dom, cell as int, j, i2) {
                        let j = choose|j: int| 0 <= j < k && #[trigger] lands(*dom, cell as int, j, i2);
                        assert(0 <= j < k + 1 && lands(*dom, cell as int, j, i2));
                    }
                    if exists|j: int| 0 <= j < k + 1 && #[trigger] lands(*dom, cell as int, j, i2) {
                        let j = choose|j: int| 0 <= j < k + 1 && #[trigger] lands(*dom, cell as int, j, i2);
                        if j < k {
                            assert(0 <= j < k && lands(*dom, cell as int, j, i2));
                        }
                    }
                }
            },
        }
        k += 1;
    }
    assert forall|i: int| 0 <= i < dom.size() implies #[trigger] terrain@[i] == if dom.cell_exists(i)
        && near(*dom, cell as int, i) {
        1u8
    } else {
        old(terrain)@[i]
    } by {
        lemma_near_iff_lands(*dom, cell as int, i);
    }
}

} // verus!

verus! {

/// The mulberry32 state after `k` draws from state `a`.
pub open spec fn advanced(a: u32, k: nat) -> u32 {
    ((a + k * RNG_STEP) % 0x1_0000_0000) as u32
}

pub proof fn lemma_advanced_step(a: u32, k: nat)
    ensures
        advanced(a, k + 1) == advanced(a, k).wrapping_add(RNG_STEP),
        advanced(a, 0) == a,
{
    let m = 0x1_0000_0000int;
    let s = a + k * RNG_STEP;
    vstd::arithmetic::div_mod::lemma_add_mod_noop(s, RNG_STEP as int, m);
    vstd::arithmetic::div_mod::lemma_mod_twice(s + RNG_STEP, m);
    vstd::arithmetic::div_mod::lemma_small_mod(a as nat, m as nat);
    vstd::arithmetic::div_mod::lemma_small_mod(RNG_STEP as nat, m as nat);
    assert(s + RNG_STEP == a + (k + 1) * RNG_STEP) by (nonlinear_arith)
        requires
            s == a + k * RNG_STEP,
    ;
}

/// Scatter draws an obstacle when the unit value is below `0.35 * pct / 100`.
pub open spec fn scatter_hit(w: u32, pct: u32) -> bool {
    w * 2000 < 7 * pct * 0x1_0000_0000
}

/// The starting map: weight-1 ground inside the mask, void outside.
pub fn blank(dom: &Domain) -> (t: Vec<u8>)
    requires
        dom.wf(),
    ensures
        t@.len() == dom.size(),
        forall|i: int|
            0 <= i < dom.size() ==> #[trigger] t@[i] == if dom.exists@[i] == 1 {
                1u8
            } else {
                T_VOID
            },
{
    let total = dom.total();
    let mut t: Vec<u8> = Vec::new();
    let mut i: usize = 0;
    while i < total
        invariant
            dom.wf(),
            total == dom.size(),
            i <= total,
            t@.len() == i,
            forall|j: int|
                0 <= j < i ==> #[trigger] t@[j] == if dom.exists@[j] == 1 {
                    1u8
                } else {
                    T_VOID
                },
        decreases total - i,
    {
        t.push(if dom.exists[i] == 1 { 1 } else { T_VOID });
        i += 1;
    }
    t
}

/// Isolated scatter voxels: each existing cell, in index order, draws once
/// and becomes a wall when the draw falls below `0.35 * density_pct / 100`.
pub fn scatter(dom: &Domain, terrain: &mut [u8], rng: &mut Rng, density_pct: u32)
    requires
        dom.wf(),
        old(terrain)@.len() == dom.size(),
    ensures
        final(terrain)@.len() == old(terrain)@.len(),
        final(rng).state() == advanced(old(rng).state(), crate::domain::count_ones(dom.exists@)),
        forall|i: int|
            0 <= i < dom.size() ==> #[trigger] final(terrain)@[i] == if dom.exists@[i] == 1
                && scatter_hit(
                mulberry(
                    advanced(
                        old(rng).state(),
                        crate::domain::count_ones(dom.exists@.take(i)) + 1,
                    ),
                ),
                density_pct,
            ) {
                T_OBST
            } else {
                old(terrain)@[i]
            },
{
    let ghost a0 = rng.state();
    let total = dom.total();
    let num: u64 = if 7 * (density_pct as u64) < 2000 {
        7 * (density_pct as u64)
    } else {
        2000
    };
    let mut i: usize = 0;
    proof {
        assert(dom.exists@.take(0) =~= Seq::<u8>::empty());
        lemma_advanced_step(a0, 0);
    }
    while i < total
        invariant
            dom.wf(),
            total == dom.size(),
            i <= total,
            terrain@.len() == total,
            num == if 7 * density_pct < 2000 {
                7 * density_pct
            } else {
                2000
            },
            rng.state() == advanced(a0, crate::domain::count_ones(dom.exists@.take(i as int))),
            forall|j: int|
                0 <= j < i ==> #[trigger] terrain@[j] == if dom.exists@[j] == 1 && scatter_hit(
                    mulberry(advanced(a0, crate::domain::count_ones(dom.exists@.take(j)) + 1)),
                    density_pct,
                ) {
                    T_OBST
                } else {
                    old(terrain)@[j]
                },
            forall|j: int| i <= j < total ==> #[trigger] terrain@[j] == old(terrain)@[j],
        decreases total - i,
    {
        let ghost c = crate::domain::count_ones(dom.exists@.take(i as int));
        proof {
            assert(dom.exists@.take(i + 1) =~= dom.exists@.take(i as int).push(dom.exists@[i as int]));
            crate::domain::lemma_count_ones_push(dom.exists@.take(i as int), dom.exists@[i as int]);
            lemma_advanced_step(a0, c);
        }
        if dom.exists[i] == 1 {
            let hit = rng.chance(num, 2000);
            proof {
                let w = mulberry(rng.state());
                assert(hit == scatter_hit(w, density_pct)) by (nonlinear_arith)
                    requires
                        hit == (w * 2000 < num * 0x1_0000_0000),
                        num == if 7 * density_pct < 2000 {
                            7 * density_pct
                        } else {
                            2000
                        },
                        w < 0x1_0000_0000,
                ;
            }
            if hit {
                terrain[i] = T_OBST;
            }
        }
        i += 1;
    }
    proof {
        assert(dom.exists@.take(total as int) =~= dom.exists@);
    }
}

} // verus!

verus! {

/// `t` differs from `t0` only at existing cells, and only by having been set
/// to a wall or to weight-1 ground.
pub open spec fn only_walls_or_ground(dom: Domain, t0: Seq<u8>, t: Seq<u8>) -> bool {
    &&& t.len() == t0.len()
    &&& forall|i: int|
        0 <= i < t.len() ==> #[trigger] t[i] == t0[i] || (dom.cell_exists(i) && (t[i] == T_OBST
            || t[i] == 1u8))
}

fn seq_contains(v: &Vec<i64>, k: i64) -> (b: bool)
    ensures
        b == v@.contains(k),
{
    let mut i: usize = 0;
    while i < v.len()
        invariant
            i <= v@.len(),
            forall|j: int| 0 <= j < i ==> v@[j] != k,
        decreases v@.len() - i,
    {
        if v[i] == k {
            return true;
        }
        i += 1;
    }
    false
}

/// Index of the cell at plane coordinate `p` along `axis` and `(u, v)`
/// across it, `u` and `v` taken along the remaining axes in order.
pub open spec fn plane_cell(dom: Domain, axis: int, p: int, u: int, v: int) -> int {
    if axis == 0 {
        dom.index_of(p, u, v)
    } else if axis == 1 {
        dom.index_of(u, p, v)
    } else {
        dom.index_of(u, v, p)
    }
}

/// Set the cell at plane coordinate `p` along `axis` and `(u, v)` across it,
/// if the cell exists.
fn put(dom: &Domain, terrain: &mut [u8], axis: usize, p: i32, u: i32, v: i32, val: u8)
    requires
        dom.wf(),
        old(terrain)@.len() == dom.size(),
        axis < 3,
        0 <= p < dom.dim(axis as int),
        0 <= u < dom.dim(if axis == 0 { 1int } else { 0int }),
        0 <= v < dom.dim(if axis == 2 { 1int } else { 2int }),
    ensures
        final(terrain)@ == if dom.cell_exists(plane_cell(*dom, axis as int, p as int, u as int, v as int)) {
            old(terrain)@.update(plane_cell(*dom, axis as int, p as int, u as int, v as int), val)
        } else {
            old(terrain)@
        },
        final(terrain)@.len() == old(terrain)@.len(),
        forall|i: int|
            0 <= i < dom.size() ==> #[trigger] final(terrain)@[i] == old(terrain)@[i] || (
            dom.cell_exists(i) && final(terrain)@[i] == val),
        forall|i: int|
            0 <= i < dom.size() && #[trigger] final(terrain)@[i] != old(terrain)@[i] ==> dom.coord(i, axis as int) == p,
{
    let (x, y, z) = if axis == 0 {
        (p, u, v)
    } else if axis == 1 {
        (u, p, v)
    } else {
        (u, v, p)
    };
    let i = dom.idx(x, y, z) as usize;
    proof {
        dom.lemma_index_of(x as int, y as int, z as int);
    }
    if dom.exists[i] == 1 {
        terrain[i] = val;
    }
}

/// Every cell that differs between `t0` and `t` lies on one of `planes`,
/// each an axis and a position along it.
pub open spec fn changes_on_planes(dom: Domain, t0: Seq<u8>, t: Seq<u8>, planes: Seq<(int, int)>) -> bool {
    forall|i: int|
        0 <= i < t.len() && #[trigger] t[i] != t0[i] ==> exists|k: int|
            0 <= k < planes.len() && dom.coord(i, (#[trigger] planes[k]).0) == planes[k].1
}

/// Adding a plane keeps every change covered.
proof fn lemma_planes_push(dom: Domain, t0: Seq<u8>, t: Seq<u8>, planes: Seq<(int, int)>, pl: (int, int))
    requires
        changes_on_planes(dom, t0, t, planes),
    ensures
        changes_on_planes(dom, t0, t, planes.push(pl)),
{
    let p2 = planes.push(pl);
    assert forall|i: int| 0 <= i < t.len() && #[trigger] t[i] != t0[i] implies exists|k: int|
        0 <= k < p2.len() && dom.coord(i, (#[trigger] p2[k]).0) == p2[k].1 by {
        let k = choose|k: int| 0 <= k < planes.len() && dom.coord(i, (#[trigger] planes[k]).0) == planes[k].1;
        assert(p2[k] == planes[k]);
    }
}

/// A write confined to the last plane keeps every change covered.
proof fn lemma_planes_write(dom: Domain, t0: Seq<u8>, t: Seq<u8>, t2: Seq<u8>, planes: Seq<(int, int)>)
    requires
        changes_on_planes(dom, t0, t, planes),
        planes.len() >= 1,
        t2.len() == t.len(),
        t.len() == dom.size(),
        forall|i: int|
            0 <= i < dom.size() && #[trigger] t2[i] != t[i] ==> dom.coord(i, planes.last().0) == planes.last().1,
    ensures
        changes_on_planes(dom, t0, t2, planes),
{
    assert forall|i: int| 0 <= i < t2.len() && #[trigger] t2[i] != t0[i] implies exists|k: int|
        0 <= k < planes.len() && dom.coord(i, (#[trigger] planes[k]).0) == planes[k].1 by {
        if t2[i] != t[i] {
            let k = planes.len() - 1;
            assert(planes[k] == planes.last());
        } else {
            assert(t[i] != t0[i]);
        }
    }
}

/// The generator state after one draw from `a`.
pub open spec fn drawn(a: u32) -> u32 {
    a.wrapping_add(RNG_STEP)
}

/// What `below(n)` returns from generator state `a`.
pub open spec fn below_from(a: u32, n: int) -> int {
    scale_word(mulberry(drawn(a)), n)
}

/// What `chance(num, den)` returns from generator state `a`.
pub open spec fn chance_from(a: u32, num: int, den: int) -> bool {
    mulberry(drawn(a)) * den < num * 0x1_0000_0000
}

/// The two axes a plane across `axis` spans, in order.
pub open spec fn across(axis: int) -> (int, int) {
    (if axis == 0 { 1 } else { 0 }, if axis == 2 { 1 } else { 2 })
}

/// `t` with `val` written on every existing cell that `sel` selects.
pub open spec fn painted_where(dom: Domain, t: Seq<u8>, sel: spec_fn(int) -> bool, val: u8) -> Seq<u8> {
    Seq::new(t.len(), |i: int| if dom.cell_exists(i) && sel(i) { val } else { t[i] })
}

/// Cell `i` lies on plane `p` across `axis`, within `r` of `(hu, hv)` in
/// both spanned axes.
pub open spec fn in_square(dom: Domain, i: int, axis: int, p: int, hu: int, hv: int, r: int) -> bool {
    &&& dom.coord(i, axis) == p
    &&& hu - r <= dom.coord(i, across(axis).0) <= hu + r
    &&& hv - r <= dom.coord(i, across(axis).1) <= hv + r
}

/// Cell `i` of plane `p` across `axis` gets a gap: its draw, counted along
/// the plane row by row from state `a`, comes up one in twenty.
pub open spec fn gap_at(dom: Domain, i: int, axis: int, p: int, dv: int, a: u32) -> bool {
    &&& dom.coord(i, axis) == p
    &&& chance_from(
        advanced(a, (dom.coord(i, across(axis).0) * dv + dom.coord(i, across(axis).1)) as nat),
        1,
        20,
    )
}

/// One hole punched into the wall from generator state `a`: its centre, and
/// on small domains whether it is one cell or three wide, come from the
/// generator.
pub open spec fn one_hole(dom: Domain, t: Seq<u8>, a: u32, axis: int, p: int, du: int, dv: int, big: bool) -> (Seq<u8>, u32) {
    let hu = 1 + below_from(a, du - 2);
    let a1 = drawn(a);
    let hv = 1 + below_from(a1, dv - 2);
    let a2 = drawn(a1);
    let r: int = if big {
        1
    } else if chance_from(a2, 1, 2) {
        1
    } else {
        0
    };
    let a3 = if big {
        a2
    } else {
        drawn(a2)
    };
    (painted_where(dom, t, |i: int| in_square(dom, i, axis, p, hu, hv, r), 1u8), a3)
}

/// The terrain and generator state after `h` holes.
pub open spec fn holes_after(
    dom: Domain,
    t: Seq<u8>,
    a: u32,
    axis: int,
    p: int,
    du: int,
    dv: int,
    big: bool,
    h: nat,
) -> (Seq<u8>, u32)
    decreases h,
{
    if h == 0 {
        (t, a)
    } else {
        let s = holes_after(dom, t, a, axis, p, du, dv, big, (h - 1) as nat);
        one_hole(dom, s.0, s.1, axis, p, du, dv, big)
    }
}

/// A plane key, or one next to it, has been used already.
pub open spec fn taken(used: Seq<i64>, k: int) -> bool {
    used.contains(k as i64) || used.contains((k + 1) as i64) || used.contains((k - 1) as i64)
}

/// The plane position finally chosen, and the generator state after:
/// redrawn while it sits on or next to a used plane, at most 24 times.
pub open spec fn pick_plane(a: u32, axis: int, n: int, used: Seq<i64>, p: int, g: int) -> (int, u32)
    decreases 24 - g,
{
    if 0 <= g < 24 && taken(used, axis * 1000 + p) {
        pick_plane(drawn(a), axis, n, used, 2 + below_from(a, n - 4), g + 1)
    } else {
        (p, a)
    }
}

/// The longest side of the domain's box.
pub open spec fn longest_side(dom: Domain) -> int {
    if dom.nx >= dom.ny && dom.nx >= dom.nz {
        dom.nx as int
    } else if dom.ny >= dom.nz {
        dom.ny as int
    } else {
        dom.nz as int
    }
}

/// Walls a domain gets: three on a large one, two otherwise.
pub open spec fn walls_in(dom: Domain) -> nat {
    if longest_side(dom) >= 18 {
        3
    } else {
        2
    }
}

/// One wall from generator state `a`: an axis, a position along it clear of
/// the used ones, the full cross-section walled, one or two holes, then a
/// one-in-twenty gap at every cell of the plane. Returns the terrain, the
/// generator state and the used plane keys after.
pub open spec fn one_wall(dom: Domain, t: Seq<u8>, a: u32, used: Seq<i64>) -> (Seq<u8>, u32, Seq<i64>) {
    let axis = below_from(a, 3);
    let a1 = drawn(a);
    let n = dom.dim(axis);
    if n < 5 {
        (t, a1, used)
    } else {
        let pk = pick_plane(drawn(a1), axis, n, used, 2 + below_from(a1, n - 4), 0);
        let p = pk.0;
        let du = dom.dim(across(axis).0);
        let dv = dom.dim(across(axis).1);
        let t1 = painted_where(dom, t, |i: int| dom.coord(i, axis) == p, T_OBST);
        let holes = 1 + below_from(pk.1, 2);
        let hs = holes_after(dom, t1, drawn(pk.1), axis, p, du, dv, longest_side(dom) >= 16, holes as nat);
        let t3 = painted_where(dom, hs.0, |i: int| gap_at(dom, i, axis, p, dv, hs.1), 1u8);
        (t3, advanced(hs.1, (du * dv) as nat), used.push((axis * 1000 + p) as i64))
    }
}

/// The terrain, generator state and used plane keys after `w` walls.
pub open spec fn walls_after(dom: Domain, t: Seq<u8>, a: u32, w: nat) -> (Seq<u8>, u32, Seq<i64>)
    decreases w,
{
    if w == 0 {
        (t, a, Seq::empty())
    } else {
        let s = walls_after(dom, t, a, (w - 1) as nat);
        one_wall(dom, s.0, s.1, s.2)
    }
}

/// Cells of plane `p` across `axis` before `(u, v)`, row by row.
pub open spec fn fill_sel(dom: Domain, axis: int, p: int, u: int, v: int) -> spec_fn(int) -> bool {
    |i: int|
        dom.coord(i, axis) == p && (dom.coord(i, across(axis).0) < u || (dom.coord(i, across(axis).0) == u && dom.coord(
            i,
            across(axis).1,
        ) < v))
}

/// Cells of the square of radius `r` around `(hu, hv)` on plane `p` before
/// offset `(du, dv)`, row by row.
pub open spec fn square_sel(dom: Domain, axis: int, p: int, hu: int, hv: int, r: int, du: int, dv: int) -> spec_fn(int) -> bool {
    |i: int|
        dom.coord(i, axis) == p && ((hu - r <= dom.coord(i, across(axis).0) < hu + du && hv - r <= dom.coord(
            i,
            across(axis).1,
        ) <= hv + r) || (dom.coord(i, across(axis).0) == hu + du && hv - r <= dom.coord(i, across(axis).1) < hv + dv))
}

/// Gap cells of plane `p` before `(u, v)`, row by row.
pub open spec fn gap_sel(dom: Domain, axis: int, p: int, dv: int, a: u32, u: int, v: int) -> spec_fn(int) -> bool {
    |i: int| gap_at(dom, i, axis, p, dv, a) && fill_sel(dom, axis, p, u, v)(i)
}

/// The cell at `(u, v)` of plane `p` across `axis` is the one cell of the
/// box with those coordinates.
proof fn lemma_plane_cell(dom: Domain, axis: int, p: int, u: int, v: int)
    requires
        dom.wf(),
        0 <= axis < 3,
        0 <= p < dom.dim(axis),
        0 <= u < dom.dim(across(axis).0),
        0 <= v < dom.dim(across(axis).1),
    ensures
        0 <= plane_cell(dom, axis, p, u, v) < dom.size(),
        forall|i: int|
            0 <= i < dom.size() ==> (i == plane_cell(dom, axis, p, u, v) <==> (dom.coord(i, axis) == p && dom.coord(
                i,
                across(axis).0,
            ) == u && dom.coord(i, across(axis).1) == v)),
{
    let c = plane_cell(dom, axis, p, u, v);
    if axis == 0 {
        dom.lemma_index_of(p, u, v);
    } else if axis == 1 {
        dom.lemma_index_of(u, p, v);
    } else {
        dom.lemma_index_of(u, v, p);
    }
    assert forall|i: int| 0 <= i < dom.size() implies (i == c <==> (dom.coord(i, axis) == p && dom.coord(i, across(axis).0)
        == u && dom.coord(i, across(axis).1) == v)) by {
        dom.lemma_coords(i);
    }
}

/// Every cell of the box has coordinates inside it.
proof fn lemma_in_box_all(dom: Domain)
    requires
        dom.wf(),
    ensures
        forall|i: int|
            0 <= i < dom.size() ==> 0 <= #[trigger] dom.coord(i, 0) < dom.nx && 0 <= dom.coord(i, 1) < dom.ny && 0
                <= dom.coord(i, 2) < dom.nz,
{
    assert forall|i: int| 0 <= i < dom.size() implies 0 <= #[trigger] dom.coord(i, 0) < dom.nx && 0 <= dom.coord(i, 1)
        < dom.ny && 0 <= dom.coord(i, 2) < dom.nz by {
        dom.lemma_coords(i);
    }
}

/// Writing `val` at cell `c` when `hit` grows the written selection by `c`.
proof fn lemma_paint_step(
    dom: Domain,
    t0: Seq<u8>,
    t: Seq<u8>,
    t2: Seq<u8>,
    sel: spec_fn(int) -> bool,
    sel2: spec_fn(int) -> bool,
    c: int,
    hit: bool,
    val: u8,
)
    requires
        t0.len() == dom.size(),
        t == painted_where(dom, t0, sel, val),
        0 <= c < dom.size(),
        t2 == if hit && dom.cell_exists(c) {
            t.update(c, val)
        } else {
            t
        },
        forall|i: int| 0 <= i < dom.size() ==> #[trigger] sel2(i) == (sel(i) || (hit && i == c)),
    ensures
        t2 == painted_where(dom, t0, sel2, val),
{
    assert(t2 =~= painted_where(dom, t0, sel2, val));
}

/// Selections that agree on the box write the same terrain.
proof fn lemma_paint_same(dom: Domain, t0: Seq<u8>, sel: spec_fn(int) -> bool, sel2: spec_fn(int) -> bool, val: u8)
    requires
        t0.len() == dom.size(),
        forall|i: int| 0 <= i < dom.size() ==> #[trigger] sel2(i) == sel(i),
    ensures
        painted_where(dom, t0, sel, val) == painted_where(dom, t0, sel2, val),
{
    assert(painted_where(dom, t0, sel, val) =~= painted_where(dom, t0, sel2, val));
}

/// One cell of the gap sweep: the draw at the cell's place in the sweep
/// decides whether it opens, and the generator moves one draw on.
proof fn lemma_gap_step(
    dom: Domain,
    t2: Seq<u8>,
    before: Seq<u8>,
    after: Seq<u8>,
    axis: int,
    p: int,
    dv: int,
    a: u32,
    u: int,
    v: int,
    hit: bool,
    st: u32,
)
    requires
        dom.wf(),
        0 <= axis < 3,
        0 <= p < dom.dim(axis),
        0 <= u < dom.dim(across(axis).0),
        0 <= v < dom.dim(across(axis).1),
        dv == dom.dim(across(axis).1),
        0 <= u * dv,
        t2.len() == dom.size(),
        before == painted_where(dom, t2, gap_sel(dom, axis, p, dv, a, u, v), 1u8),
        st == advanced(a, (u * dv + v) as nat),
        hit == chance_from(st, 1, 20),
        after == if hit && dom.cell_exists(plane_cell(dom, axis, p, u, v)) {
            before.update(plane_cell(dom, axis, p, u, v), 1u8)
        } else {
            before
        },
    ensures
        after == painted_where(dom, t2, gap_sel(dom, axis, p, dv, a, u, v + 1), 1u8),
        drawn(st) == advanced(a, (u * dv + v + 1) as nat),
{
    lemma_advanced_step(a, (u * dv + v) as nat);
    lemma_plane_cell(dom, axis, p, u, v);
    let c = plane_cell(dom, axis, p, u, v);
    assert forall|i: int| 0 <= i < dom.size() implies #[trigger] gap_sel(dom, axis, p, dv, a, u, v + 1)(i) == (gap_sel(
        dom,
        axis,
        p,
        dv,
        a,
        u,
        v,
    )(i) || (hit && i == c)) by {
        if i == c {
            assert(dom.coord(i, axis) == p && dom.coord(i, across(axis).0) == u && dom.coord(i, across(axis).1) == v);
            assert(dom.coord(i, across(axis).0) * dv + dom.coord(i, across(axis).1) == u * dv + v);
        }
    }
    lemma_paint_step(
        dom,
        t2,
        before,
        after,
        gap_sel(dom, axis, p, dv, a, u, v),
        gap_sel(dom, axis, p, dv, a, u, v + 1),
        c,
        hit,
        1u8,
    );
}

/// Perforated walls: full cross-sections of the box, each punched with one
/// or two holes and sprinkled with single-cell gaps. The layout is the one
/// the generator's draws pick, as `walls_after` spells out.
pub fn walls(dom: &Domain, terrain: &mut [u8], rng: &mut Rng)
    requires
        dom.wf(),
        old(terrain)@.len() == dom.size(),
    ensures
        final(terrain)@ == walls_after(*dom, old(terrain)@, old(rng).state(), walls_in(*dom)).0,
        final(rng).state() == walls_after(*dom, old(terrain)@, old(rng).state(), walls_in(*dom)).1,
        only_walls_or_ground(*dom, old(terrain)@, final(terrain)@),
        exists|planes: Seq<(int, int)>|
            {
                &&& planes.len() <= 3
                &&& forall|k: int|
                    0 <= k < planes.len() ==> 0 <= (#[trigger] planes[k]).0 < 3 && 2 <= planes[k].1 < dom.dim(
                        planes[k].0,
                    ) - 2
                &&& changes_on_planes(*dom, old(terrain)@, final(terrain)@, planes)
            },
{
    let dims = [dom.nx, dom.ny, dom.nz];
    let max_dim = if dom.nx >= dom.ny && dom.nx >= dom.nz {
        dom.nx
    } else if dom.ny >= dom.nz {
        dom.ny
    } else {
        dom.nz
    };
    let wall_count: i32 = if max_dim >= 18 {
        3
    } else {
        2
    };
    let mut used: Vec<i64> = Vec::new();
    let ghost mut planes: Seq<(int, int)> = Seq::empty();
    let ghost a0 = rng.state();
    proof {
        assert(used@ =~= Seq::<i64>::empty());
        lemma_in_box_all(*dom);
    }
    let mut w: i32 = 0;
    while w < wall_count
        invariant
            dom.wf(),
            dims@ == seq![dom.nx, dom.ny, dom.nz],
            max_dim == longest_side(*dom),
            wall_count == walls_in(*dom),
            terrain@.len() == dom.size(),
            only_walls_or_ground(*dom, old(terrain)@, terrain@),
            0 <= w <= wall_count <= 3,
            planes.len() <= w,
            forall|k: int|
                0 <= k < planes.len() ==> 0 <= (#[trigger] planes[k]).0 < 3 && 2 <= planes[k].1 < dom.dim(planes[k].0)
                    - 2,
            changes_on_planes(*dom, old(terrain)@, terrain@, planes),
            (terrain@, rng.state(), used@) == walls_after(*dom, old(terrain)@, a0, w as nat),
            forall|i: int|
                0 <= i < dom.size() ==> 0 <= #[trigger] dom.coord(i, 0) < dom.nx && 0 <= dom.coord(i, 1) < dom.ny && 0
                    <= dom.coord(i, 2) < dom.nz,
        decreases wall_count - w,
    {
        let ghost tw = terrain@;
        let ghost aw = rng.state();
        let ghost uw = used@;
        w += 1;
        let axis = rng.below(3) as usize;
        let n = dims[axis];
        if n < 5 {
            proof {
                assert(walls_after(*dom, old(terrain)@, a0, w as nat) == one_wall(*dom, tw, aw, uw));
            }
            continue;
        }
        let mut p = 2 + rng.below(n - 4);
        let ghost pk = pick_plane(rng.state(), axis as int, n as int, used@, p as int, 0);
        let mut k = axis as i64 * 1000 + p as i64;
        let mut guard: i32 = 0;
        while guard < 24 && (seq_contains(&used, k) || seq_contains(&used, k + 1) || seq_contains(
            &used,
            k - 1,
        ))
            invariant
                2 <= p < n - 2,
                axis < 3,
                n <= i32::MAX,
                k == axis * 1000 + p,
                0 <= guard <= 24,
                pick_plane(rng.state(), axis as int, n as int, used@, p as int, guard as int) == pk,
            decreases 24 - guard,
        {
            p = 2 + rng.below(n - 4);
            k = axis as i64 * 1000 + p as i64;
            guard += 1;
        }
        proof {
            assert(pk == (p as int, rng.state()));
        }
        used.push(k);
        proof {
            lemma_planes_push(*dom, old(terrain)@, terrain@, planes, (axis as int, p as int));
            planes = planes.push((axis as int, p as int));
        }
        let ghost a3 = rng.state();
        let (ua, va) = if axis == 0 {
            (1usize, 2usize)
        } else if axis == 1 {
            (0, 2)
        } else {
            (0, 1)
        };
        let (du, dv) = (dims[ua], dims[va]);
        proof {
            lemma_in_box_all(*dom);
            assert(painted_where(*dom, tw, fill_sel(*dom, axis as int, p as int, 0, 0), T_OBST) =~= tw);
        }
        let mut u: i32 = 0;
        while u < du
            invariant
                dom.wf(),
                terrain@.len() == dom.size(),
                only_walls_or_ground(*dom, old(terrain)@, terrain@),
                changes_on_planes(*dom, old(terrain)@, terrain@, planes),
                planes.len() >= 1,
                planes.last() == (axis as int, p as int),
                axis < 3,
                0 <= p < dom.dim(axis as int),
                du == dom.dim(if axis == 0 { 1int } else { 0int }),
                dv == dom.dim(if axis == 2 { 1int } else { 2int }),
                0 <= u <= du,
                tw.len() == dom.size(),
                rng.state() == a3,
                terrain@ == painted_where(*dom, tw, fill_sel(*dom, axis as int, p as int, u as int, 0), T_OBST),
                forall|i: int|
                    0 <= i < dom.size() ==> 0 <= #[trigger] dom.coord(i, 0) < dom.nx && 0 <= dom.coord(i, 1) < dom.ny
                        && 0 <= dom.coord(i, 2) < dom.nz,
            decreases du - u,
        {
            let mut v: i32 = 0;
            while v < dv
                invariant
                    dom.wf(),
                    terrain@.len() == dom.size(),
                    only_walls_or_ground(*dom, old(terrain)@, terrain@),
                    changes_on_planes(*dom, old(terrain)@, terrain@, planes),
                    planes.len() >= 1,
                    planes.last() == (axis as int, p as int),
                    axis < 3,
                    0 <= p < dom.dim(axis as int),
                    du == dom.dim(if axis == 0 { 1int } else { 0int }),
                    dv == dom.dim(if axis == 2 { 1int } else { 2int }),
                    0 <= u < du,
                    0 <= v <= dv,
                    tw.len() == dom.size(),
                    rng.state() == a3,
                    terrain@ == painted_where(*dom, tw, fill_sel(*dom, axis as int, p as int, u as int, v as int), T_OBST),
                decreases dv - v,
            {
                let ghost before = terrain@;
                put(dom, terrain, axis, p, u, v, T_OBST);
                proof {
                    lemma_planes_write(*dom, old(terrain)@, before, terrain@, planes);
                    lemma_plane_cell(*dom, axis as int, p as int, u as int, v as int);
                    lemma_paint_step(
                        *dom,
                        tw,
                        before,
                        terrain@,
                        fill_sel(*dom, axis as int, p as int, u as int, v as int),
                        fill_sel(*dom, axis as int, p as int, u as int, v + 1),
                        plane_cell(*dom, axis as int, p as int, u as int, v as int),
                        true,
                        T_OBST,
                    );
                }
                v += 1;
            }
            proof {
                lemma_paint_same(
                    *dom,
                    tw,
                    fill_sel(*dom, axis as int, p as int, u as int, dv as int),
                    fill_sel(*dom, axis as int, p as int, u + 1, 0),
                    T_OBST,
                );
            }
            u += 1;
        }
        let ghost t1 = painted_where(*dom, tw, |i: int| dom.coord(i, axis as int) == p, T_OBST);
        proof {
            lemma_paint_same(*dom, tw, fill_sel(*dom, axis as int, p as int, du as int, 0), |i: int| dom.coord(i, axis as int) == p, T_OBST);
        }
        let holes = 1 + rng.below(2);
        let ghost a4 = rng.state();
        let ghost big = max_dim >= 16;
        let mut h: i32 = 0;
        while h < holes
            invariant
                dom.wf(),
                terrain@.len() == dom.size(),
                only_walls_or_ground(*dom, old(terrain)@, terrain@),
                changes_on_planes(*dom, old(terrain)@, terrain@, planes),
                planes.len() >= 1,
                planes.last() == (axis as int, p as int),
                axis < 3,
                0 <= p < dom.dim(axis as int),
                du == dom.dim(if axis == 0 { 1int } else { 0int }),
                dv == dom.dim(if axis == 2 { 1int } else { 2int }),
                0 <= h <= holes,
                big == (max_dim >= 16),
                (terrain@, rng.state()) == holes_after(*dom, t1, a4, axis as int, p as int, du as int, dv as int, big, h as nat),
                forall|i: int|
                    0 <= i < dom.size() ==> 0 <= #[trigger] dom.coord(i, 0) < dom.nx && 0 <= dom.coord(i, 1) < dom.ny
                        && 0 <= dom.coord(i, 2) < dom.nz,
            decreases holes - h,
        {
            let ghost th = terrain@;
            let ghost ah = rng.state();
            h += 1;
            let hu = 1 + rng.below(du - 2);
            let hv = 1 + rng.below(dv - 2);
            let r: i32 = if max_dim >= 16 {
                1
            } else if rng.chance(1, 2) {
                1
            } else {
                0
            };
            let ghost ar = rng.state();
            proof {
                lemma_in_box_all(*dom);
                assert(painted_where(*dom, th, square_sel(*dom, axis as int, p as int, hu as int, hv as int, r as int, -r, -r), 1u8)
                    =~= th);
            }
            let mut d_u = -r;
            while d_u <= r
                invariant
                    dom.wf(),
                    terrain@.len() == dom.size(),
                    only_walls_or_ground(*dom, old(terrain)@, terrain@),
                    changes_on_planes(*dom, old(terrain)@, terrain@, planes),
                    planes.len() >= 1,
                    planes.last() == (axis as int, p as int),
                    axis < 3,
                    0 <= p < dom.dim(axis as int),
                    du == dom.dim(if axis == 0 { 1int } else { 0int }),
                    dv == dom.dim(if axis == 2 { 1int } else { 2int }),
                    1 <= hu <= if du > 2 { du - 1 } else { 1 },
                    1 <= hv <= if dv > 2 { dv - 1 } else { 1 },
                    0 <= r <= 1,
                    -r <= d_u <= r + 1,
                    th.len() == dom.size(),
                    rng.state() == ar,
                    terrain@ == painted_where(*dom, th, square_sel(*dom, axis as int, p as int, hu as int, hv as int, r as int, d_u as int, -r), 1u8),
                    forall|i: int|
                        0 <= i < dom.size() ==> 0 <= #[trigger] dom.coord(i, 0) < dom.nx && 0 <= dom.coord(i, 1) < dom.ny
                            && 0 <= dom.coord(i, 2) < dom.nz,
                decreases r + 1 - d_u,
            {
                let mut d_v = -r;
                while d_v <= r
                    invariant
                        dom.wf(),
                        terrain@.len() == dom.size(),
                        only_walls_or_ground(*dom, old(terrain)@, terrain@),
                        changes_on_planes(*dom, old(terrain)@, terrain@, planes),
                        planes.len() >= 1,
                        planes.last() == (axis as int, p as int),
                        axis < 3,
                        0 <= p < dom.dim(axis as int),
                        du == dom.dim(if axis == 0 { 1int } else { 0int }),
                        dv == dom.dim(if axis == 2 { 1int } else { 2int }),
                        1 <= hu <= if du > 2 { du - 1 } else { 1 },
                        1 <= hv <= if dv > 2 { dv - 1 } else { 1 },
                        0 <= r <= 1,
                        -r <= d_u <= r,
                        -r <= d_v <= r + 1,
                        th.len() == dom.size(),
                        rng.state() == ar,
                        terrain@ == painted_where(*dom, th, square_sel(*dom, axis as int, p as int, hu as int, hv as int, r as int, d_u as int, d_v as int), 1u8),
                        forall|i: int|
                            0 <= i < dom.size() ==> 0 <= #[trigger] dom.coord(i, 0) < dom.nx && 0 <= dom.coord(i, 1)
                                < dom.ny && 0 <= dom.coord(i, 2) < dom.nz,
                    decreases r + 1 - d_v,
                {
                    let (cu, cv) = (hu + d_u, hv + d_v);
                    let ghost before = terrain@;
                    if cu >= 0 && cv >= 0 && cu < du && cv < dv {
                        put(dom, terrain, axis, p, cu, cv, 1);
                        proof {
                            lemma_planes_write(*dom, old(terrain)@, before, terrain@, planes);
                            lemma_plane_cell(*dom, axis as int, p as int, cu as int, cv as int);
                            lemma_paint_step(
                                *dom,
                                th,
                                before,
                                terrain@,
                                square_sel(*dom, axis as int, p as int, hu as int, hv as int, r as int, d_u as int, d_v as int),
                                square_sel(*dom, axis as int, p as int, hu as int, hv as int, r as int, d_u as int, d_v + 1),
                                plane_cell(*dom, axis as int, p as int, cu as int, cv as int),
                                true,
                                1u8,
                            );
                        }
                    } else {
                        proof {
                            lemma_paint_step(
                                *dom,
                                th,
                                before,
                                terrain@,
                                square_sel(*dom, axis as int, p as int, hu as int, hv as int, r as int, d_u as int, d_v as int),
                                square_sel(*dom, axis as int, p as int, hu as int, hv as int, r as int, d_u as int, d_v + 1),
                                0,
                                false,
                                1u8,
                            );
                        }
                    }
                    d_v += 1;
                }
                proof {
                    lemma_paint_same(
                        *dom,
                        th,
                        square_sel(*dom, axis as int, p as int, hu as int, hv as int, r as int, d_u as int, r + 1),
                        square_sel(*dom, axis as int, p as int, hu as int, hv as int, r as int, d_u + 1, -r),
                        1u8,
                    );
                }
                d_u += 1;
            }
            proof {
                lemma_paint_same(
                    *dom,
                    th,
                    square_sel(*dom, axis as int, p as int, hu as int, hv as int, r as int, r + 1, -r),
                    |i: int| in_square(*dom, i, axis as int, p as int, hu as int, hv as int, r as int),
                    1u8,
                );
                assert(holes_after(*dom, t1, a4, axis as int, p as int, du as int, dv as int, big, h as nat) == one_hole(
                    *dom,
                    th,
                    ah,
                    axis as int,
                    p as int,
                    du as int,
                    dv as int,
                    big,
                ));
            }
        }
        let ghost t2 = terrain@;
        let ghost a5 = rng.state();
        proof {
            lemma_in_box_all(*dom);
            assert(painted_where(*dom, t2, gap_sel(*dom, axis as int, p as int, dv as int, a5, 0, 0), 1u8) =~= t2);
            lemma_advanced_step(a5, 0);
        }
        let mut u: i32 = 0;
        while u < du
            invariant
                dom.wf(),
                terrain@.len() == dom.size(),
                only_walls_or_ground(*dom, old(terrain)@, terrain@),
                changes_on_planes(*dom, old(terrain)@, terrain@, planes),
                planes.len() >= 1,
                planes.last() == (axis as int, p as int),
                axis < 3,
                0 <= p < dom.dim(axis as int),
                du == dom.dim(if axis == 0 { 1int } else { 0int }),
                dv == dom.dim(if axis == 2 { 1int } else { 2int }),
                0 <= u <= du,
                t2.len() == dom.size(),
                rng.state() == advanced(a5, (u * dv) as nat),
                terrain@ == painted_where(*dom, t2, gap_sel(*dom, axis as int, p as int, dv as int, a5, u as int, 0), 1u8),
                forall|i: int|
                    0 <= i < dom.size() ==> 0 <= #[trigger] dom.coord(i, 0) < dom.nx && 0 <= dom.coord(i, 1) < dom.ny
                        && 0 <= dom.coord(i, 2) < dom.nz,
            decreases du - u,
        {
            proof {
                assert(0 <= u * dv) by (nonlinear_arith)
                    requires
                        0 <= u,
                        0 <= dv,
                ;
            }
            let mut v: i32 = 0;
            while v < dv
                invariant
                    dom.wf(),
                    terrain@.len() == dom.size(),
                    only_walls_or_ground(*dom, old(terrain)@, terrain@),
                    changes_on_planes(*dom, old(terrain)@, terrain@, planes),
                    planes.len() >= 1,
                    planes.last() == (axis as int, p as int),
                    axis < 3,
                    0 <= p < dom.dim(axis as int),
                    du == dom.dim(if axis == 0 { 1int } else { 0int }),
                    dv == dom.dim(if axis == 2 { 1int } else { 2int }),
                    0 <= u < du,
                    0 <= v <= dv,
                    0 <= u * dv,
                    t2.len() == dom.size(),
                    rng.state() == advanced(a5, (u * dv + v) as nat),
                    terrain@ == painted_where(*dom, t2, gap_sel(*dom, axis as int, p as int, dv as int, a5, u as int, v as int), 1u8),
                decreases dv - v,
            {
                let ghost before = terrain@;
                let ghost st = rng.state();
                let hit = rng.chance(1, 20);
                if hit {
                    put(dom, terrain, axis, p, u, v, 1);
                    proof {
                        lemma_planes_write(*dom, old(terrain)@, before, terrain@, planes);
                    }
                }
                proof {
                    lemma_gap_step(*dom, t2, before, terrain@, axis as int, p as int, dv as int, a5, u as int, v as int, hit, st);
                }
                v += 1;
            }
            proof {
                assert((u + 1) * dv == u * dv + dv) by (nonlinear_arith);
                lemma_paint_same(
                    *dom,
                    t2,
                    gap_sel(*dom, axis as int, p as int, dv as int, a5, u as int, dv as int),
                    gap_sel(*dom, axis as int, p as int, dv as int, a5, u + 1, 0),
                    1u8,
                );
            }
            u += 1;
        }
        proof {
            lemma_paint_same(
                *dom,
                t2,
                gap_sel(*dom, axis as int, p as int, dv as int, a5, du as int, 0),
                |i: int| gap_at(*dom, i, axis as int, p as int, dv as int, a5),
                1u8,
            );
            assert(walls_after(*dom, old(terrain)@, a0, w as nat) == one_wall(*dom, tw, aw, uw));
        }
    }
}

} // verus!
