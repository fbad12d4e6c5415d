//! Domain geometry: per-axis dimensions, per-axis toroidal wrap and a
//! per-cell existence mask over the index space `x + nx*(y + ny*z)`.

use vstd::prelude::*;

verus! {

#[derive(Copy, Clone, PartialEq, Eq, Debug, Structural)]
pub enum Preset {
    Cube,
    Prism,
    Pyramid,
    Sphere,
    Torus,
}

impl Preset {
    /// The preset's name, as the user interface spells it.
    pub open spec fn name(self) -> Seq<char> {
        match self {
            Preset::Cube => seq!['c', 'u', 'b', 'e'],
            Preset::Prism => seq!['p', 'r', 'i', 's', 'm'],
            Preset::Pyramid => seq!['p', 'y', 'r', 'a', 'm', 'i', 'd'],
            Preset::Sphere => seq!['s', 'p', 'h', 'e', 'r', 'e'],
            Preset::Torus => seq!['t', 'o', 'r', 'u', 's'],
        }
    }

    /// Reading back a preset's own name gives the same preset.
    pub proof fn lemma_name_round_trip(self)
        ensures
            Preset::from_name(self.name()) == self,
    {
        let n = self.name();
        match self {
            Preset::Prism => {},
            Preset::Pyramid => {
                assert(n.len() != Preset::Prism.name().len());
            },
            Preset::Sphere => {
                assert(n[0] != Preset::Prism.name()[0]);
                assert(n.len() != Preset::Pyramid.name().len());
            },
            Preset::Torus => {
                assert(n[0] != Preset::Prism.name()[0]);
                assert(n[0] != Preset::Pyramid.name()[0]);
                assert(n[0] != Preset::Sphere.name()[0]);
            },
            Preset::Cube => {
                assert(n[0] != Preset::Prism.name()[0]);
                assert(n[0] != Preset::Pyramid.name()[0]);
                assert(n[0] != Preset::Sphere.name()[0]);
                assert(n[0] != Preset::Torus.name()[0]);
            },
        }
    }

    /// The preset a name selects; anything unrecognised is a cube.
    pub open spec fn from_name(s: Seq<char>) -> Preset {
        if s == Preset::Prism.name() {
            Preset::Prism
        } else if s == Preset::Pyramid.name() {
            Preset::Pyramid
        } else if s == Preset::Sphere.name() {
            Preset::Sphere
        } else if s == Preset::Torus.name() {
            Preset::Torus
        } else {
            Preset::Cube
        }
    }

    pub fn parse(s: &str) -> (p: Preset)
        ensures
            p == Preset::from_name(s@),
    {
        let b = s.as_bytes();
        proof {
            vstd::utf8::encode_utf8_decode_utf8(s@);
            vstd::utf8::encode_utf8_decode_utf8(Preset::Prism.name());
            vstd::utf8::encode_utf8_decode_utf8(Preset::Pyramid.name());
            vstd::utf8::encode_utf8_decode_utf8(Preset::Sphere.name());
            vstd::utf8::encode_utf8_decode_utf8(Preset::Torus.name());
        }
        if Self::spells(b, Preset::Prism) {
            Preset::Prism
        } else if Self::spells(b, Preset::Pyramid) {
            Preset::Pyramid
        } else if Self::spells(b, Preset::Sphere) {
            Preset::Sphere
        } else if Self::spells(b, Preset::Torus) {
            Preset::Torus
        } else {
            Preset::Cube
        }
    }

    /// Whether `b` is the UTF-8 encoding of `p`'s name.
    fn spells(b: &[u8], p: Preset) -> (r: bool)
        ensures
            r == (b@ == vstd::utf8::encode_utf8(p.name())),
    {
        let name = p.as_str();
        let nb = name.as_bytes();
        proof {
            reveal_strlit("cube");
            reveal_strlit("prism");
            reveal_strlit("pyramid");
            reveal_strlit("sphere");
            reveal_strlit("torus");
        }
        if b.len() != nb.len() {
            return false;
        }
        let mut i: usize = 0;
        while i < b.len()
            invariant
                b@.len() == nb@.len(),
                nb@ == vstd::utf8::encode_utf8(p.name()),
                i <= b@.len(),
                forall|j: int| 0 <= j < i ==> b@[j] == nb@[j],
            decreases b@.len() - i,
        {
            if b[i] != nb[i] {
                return false;
            }
            i += 1;
        }
        assert(b@ =~= nb@);
        true
    }

    pub fn as_str(self) -> (s: &'static str)
        ensures
            s@ == self.name(),
    {
        proof {
            reveal_strlit("cube");
            reveal_strlit("prism");
            reveal_strlit("pyramid");
            reveal_strlit("sphere");
            reveal_strlit("torus");
        }
        match self {
            Preset::Cube => "cube",
            Preset::Prism => "prism",
            Preset::Pyramid => "pyramid",
            Preset::Sphere => "sphere",
            Preset::Torus => "torus",
        }
    }
}

} // verus!

verus! {

pub proof fn lemma_square_bound(v: int)
    requires
        -0x100_0000_0000 <= v <= 0x100_0000_0000,
    ensures
        0 <= v * v <= 0x1_0000_0000_0000_0000_0000,
{
    assert(0 <= v * v <= 0x1_0000_0000_0000_0000_0000) by (nonlinear_arith)
        requires
            -0x100_0000_0000 <= v <= 0x100_0000_0000,
    ;
}

/// Cells set in a 0/1 mask.
pub open spec fn count_ones(s: Seq<u8>) -> nat
    decreases s.len(),
{
    if s.len() == 0 {
        0
    } else {
        count_ones(s.drop_last()) + if s.last() == 1u8 { 1nat } else { 0nat }
    }
}

pub proof fn lemma_count_ones_push(s: Seq<u8>, b: u8)
    ensures
        count_ones(s.push(b)) == count_ones(s) + if b == 1u8 { 1nat } else { 0nat },
        count_ones(s) <= s.len(),
    decreases s.len(),
{
    assert(s.push(b).drop_last() =~= s);
    if s.len() > 0 {
        lemma_count_ones_push(s.drop_last(), s.last());
        assert(s.drop_last().push(s.last()) =~= s);
    }
}

/// `x + nx*(y + ny*z)` for coordinates inside the box lies inside the box,
/// and the division/remainder decomposition recovers the coordinates.
pub proof fn lemma_index_coords(nx: int, ny: int, nz: int, x: int, y: int, z: int)
    requires
        1 <= nx,
        1 <= ny,
        1 <= nz,
        0 <= x < nx,
        0 <= y < ny,
        0 <= z < nz,
    ensures
        0 <= x + nx * (y + ny * z) < nx * ny * nz,
        (x + nx * (y + ny * z)) % nx == x,
        ((x + nx * (y + ny * z)) / nx) % ny == y,
        (x + nx * (y + ny * z)) / (nx * ny) == z,
{
    let w = y + ny * z;
    let i = x + nx * w;
    assert(0 <= w < ny * nz) by (nonlinear_arith)
        requires
            0 <= y < ny,
            0 <= z < nz,
            w == y + ny * z,
    ;
    assert(0 <= i < nx * ny * nz) by (nonlinear_arith)
        requires
            0 <= x < nx,
            0 <= w < ny * nz,
            i == x + nx * w,
    ;
    assert(i == w * nx + x) by (nonlinear_arith)
        requires
            i == x + nx * w,
    ;
    vstd::arithmetic::div_mod::lemma_fundamental_div_mod_converse(i, nx, w, x);
    assert(w == z * ny + y) by (nonlinear_arith)
        requires
            w == y + ny * z,
    ;
    vstd::arithmetic::div_mod::lemma_fundamental_div_mod_converse(w, ny, z, y);
    vstd::arithmetic::div_mod::lemma_div_denominator(i, nx, ny);
}

/// Every index inside the box decomposes into in-range coordinates.
pub proof fn lemma_coords_index(nx: int, ny: int, nz: int, i: int)
    requires
        1 <= nx,
        1 <= ny,
        1 <= nz,
        0 <= i < nx * ny * nz,
    ensures
        0 <= i % nx < nx,
        0 <= (i / nx) % ny < ny,
        0 <= i / (nx * ny) < nz,
        i / (nx * ny) == (i / nx) / ny,
        i == i % nx + nx * ((i / nx) % ny + ny * (i / (nx * ny))),
{
    let x = i % nx;
    let w = i / nx;
    vstd::arithmetic::div_mod::lemma_fundamental_div_mod(i, nx);
    vstd::arithmetic::div_mod::lemma_mod_pos_bound(i, nx);
    vstd::arithmetic::div_mod::lemma_div_pos_is_pos(i, nx);
    assert(w < ny * nz) by (nonlinear_arith)
        requires
            i == nx * w + x,
            0 <= x,
            i < nx * ny * nz,
            1 <= nx,
    ;
    let y = w % ny;
    let z = w / ny;
    vstd::arithmetic::div_mod::lemma_fundamental_div_mod(w, ny);
    vstd::arithmetic::div_mod::lemma_mod_pos_bound(w, ny);
    vstd::arithmetic::div_mod::lemma_div_pos_is_pos(w, ny);
    assert(z < nz) by (nonlinear_arith)
        requires
            w == ny * z + y,
            0 <= y,
            w < ny * nz,
            1 <= ny,
    ;
    vstd::arithmetic::div_mod::lemma_div_denominator(i, nx, ny);
}

pub struct Domain {
    pub preset: Preset,
    pub nx: i32,
    pub ny: i32,
    pub nz: i32,
    pub wrap: [bool; 3],
    /// 1 = the cell is part of the domain, 0 = void (untraversable, unrendered).
    pub exists: Vec<u8>,
    pub start: u32,
    pub goal: u32,
    /// Number of cells that exist.
    pub count: u32,
}

impl Domain {
    pub open spec fn dim(self, axis: int) -> int {
        if axis == 0 {
            self.nx as int
        } else if axis == 1 {
            self.ny as int
        } else {
            self.nz as int
        }
    }

    pub open spec fn wraps(self, axis: int) -> bool {
        self.wrap@[axis]
    }

    pub open spec fn size(self) -> int {
        self.nx * self.ny * self.nz
    }

    /// Box dimensions are positive and the index space fits an `i32`.
    pub open spec fn dims_ok(self) -> bool {
        &&& 1 <= self.nx
        &&& 1 <= self.ny
        &&& 1 <= self.nz
        &&& self.nx * self.ny * self.nz <= i32::MAX
    }

    /// Dimensions are valid, the mask covers the box and both endpoints are
    /// inside it.
    pub open spec fn wf(self) -> bool {
        &&& self.dims_ok()
        &&& self.exists@.len() == self.size()
        &&& self.start < self.size()
        &&& self.goal < self.size()
    }

    pub open spec fn index_of(self, x: int, y: int, z: int) -> int {
        x + self.nx * (y + self.ny * z)
    }

    pub open spec fn coord(self, i: int, axis: int) -> int {
        if axis == 0 {
            i % (self.nx as int)
        } else if axis == 1 {
            (i / (self.nx as int)) % (self.ny as int)
        } else {
            i / (self.nx * self.ny)
        }
    }

    pub open spec fn in_box(self, x: int, y: int, z: int) -> bool {
        0 <= x < self.nx && 0 <= y < self.ny && 0 <= z < self.nz
    }

    pub open spec fn cell_exists(self, i: int) -> bool {
        0 <= i < self.size() && self.exists@[i] == 1u8
    }

    /// Coordinate folded into range on a wrapped axis; `None` off the end of
    /// an unwrapped one.
    pub open spec fn fold_spec(self, v: int, axis: int) -> Option<int> {
        let n = self.dim(axis);
        if 0 <= v < n {
            Some(v)
        } else if self.wraps(axis) {
            Some(v % n)
        } else {
            None
        }
    }

    /// Per-axis separation, `min(|d|, n - |d|)` on a wrapped axis.
    pub open spec fn axis_delta_spec(self, a: int, b: int, axis: int) -> int {
        let d = if a >= b { a - b } else { b - a };
        let n = self.dim(axis);
        if self.wraps(axis) && n - d < d {
            n - d
        } else {
            d
        }
    }

    /// Separation of two cells along one axis.
    pub open spec fn delta(self, u: int, v: int, axis: int) -> int {
        self.axis_delta_spec(self.coord(u, axis), self.coord(v, axis), axis)
    }

    /// Number of axes a move between two cells touches.
    pub open spec fn step_axes(self, u: int, v: int) -> int {
        self.delta(u, v, 0) + self.delta(u, v, 1) + self.delta(u, v, 2)
    }

    pub open spec fn neighbor_spec(self, from: int, dx: int, dy: int, dz: int) -> Option<int> {
        match (
            self.fold_spec(self.coord(from, 0) + dx, 0),
            self.fold_spec(self.coord(from, 1) + dy, 1),
            self.fold_spec(self.coord(from, 2) + dz, 2),
        ) {
            (Some(x), Some(y), Some(z)) => {
                let j = self.index_of(x, y, z);
                if j == from || !self.cell_exists(j) {
                    None
                } else {
                    Some(j)
                }
            },
            _ => None,
        }
    }

    /// `v` is one legal move away from the cell `u` of the box: `v` exists,
    /// they differ, every axis moves by at most one (wrap-aware), and a move
    /// over several axes needs diagonals.
    pub open spec fn adjacent(self, u: int, v: int, diagonals: bool) -> bool {
        &&& 0 <= u < self.size()
        &&& self.cell_exists(v)
        &&& u != v
        &&& self.delta(u, v, 0) <= 1
        &&& self.delta(u, v, 1) <= 1
        &&& self.delta(u, v, 2) <= 1
        &&& (diagonals || self.step_axes(u, v) <= 1)
    }

    pub proof fn lemma_index_of(self, x: int, y: int, z: int)
        requires
            self.dims_ok(),
            self.in_box(x, y, z),
        ensures
            0 <= self.index_of(x, y, z) < self.size(),
            self.coord(self.index_of(x, y, z), 0) == x,
            self.coord(self.index_of(x, y, z), 1) == y,
            self.coord(self.index_of(x, y, z), 2) == z,
    {
        lemma_index_coords(self.nx as int, self.ny as int, self.nz as int, x, y, z);
    }

    pub proof fn lemma_coords(self, i: int)
        requires
            self.dims_ok(),
            0 <= i < self.size(),
        ensures
            self.in_box(self.coord(i, 0), self.coord(i, 1), self.coord(i, 2)),
            self.index_of(self.coord(i, 0), self.coord(i, 1), self.coord(i, 2)) == i,
    {
        lemma_coords_index(self.nx as int, self.ny as int, self.nz as int, i);
    }

    pub fn total(&self) -> (t: usize)
        requires
            self.dims_ok(),
        ensures
            t == self.size(),
    {
        proof {
            assert(1 <= self.nx * self.ny <= self.nx * self.ny * self.nz) by (nonlinear_arith)
                requires
                    1 <= self.nx,
                    1 <= self.ny,
                    1 <= self.nz,
            ;
        }
        let p = (self.nx as i64) * (self.ny as i64);
        (p * (self.nz as i64)) as usize
    }

    pub fn idx(&self, x: i32, y: i32, z: i32) -> (i: u32)
        requires
            self.dims_ok(),
            self.in_box(x as int, y as int, z as int),
        ensures
            i == self.index_of(x as int, y as int, z as int),
            i < self.size(),
    {
        proof {
            self.lemma_index_of(x as int, y as int, z as int);
            let w = y + self.ny * z;
            assert(0 <= self.ny * z <= w) by (nonlinear_arith)
                requires
                    0 <= z,
                    0 <= y,
                    1 <= self.ny,
                    w == y + self.ny * z,
            ;
            assert(0 <= w <= self.nx * w) by (nonlinear_arith)
                requires
                    0 <= w,
                    1 <= self.nx,
            ;
            assert(self.index_of(x as int, y as int, z as int) == x + self.nx * w);
        }
        (x + self.nx * (y + self.ny * z)) as u32
    }

    pub fn coords(&self, idx: u32) -> (c: (i32, i32, i32))
        requires
            self.dims_ok(),
            idx < self.size(),
        ensures
            c.0 == self.coord(idx as int, 0),
            c.1 == self.coord(idx as int, 1),
            c.2 == self.coord(idx as int, 2),
            self.in_box(c.0 as int, c.1 as int, c.2 as int),
    {
        proof {
            self.lemma_coords(idx as int);
            assert(self.nx * self.ny <= self.nx * self.ny * self.nz) by (nonlinear_arith)
                requires
                    1 <= self.nx,
                    1 <= self.ny,
                    1 <= self.nz,
            ;
        }
        let i = idx;
        let nx = self.nx as u32;
        let ny = self.ny as u32;
        let nxy = nx * ny;
        ((i % nx) as i32, ((i / nx) % ny) as i32, (i / nxy) as i32)
    }

    pub fn exists_at(&self, idx: u32) -> (b: bool)
        requires
            self.wf(),
        ensures
            b == self.cell_exists(idx as int),
    {
        (idx as usize) < self.total() && self.exists[idx as usize] == 1
    }

    /// Per-axis separation, `min(|d|, n - |d|)` on a wrapped axis.
    pub fn axis_delta(&self, a: i32, b: i32, axis: usize) -> (d: i32)
        requires
            self.dims_ok(),
            axis < 3,
            i32::MIN < a - b <= i32::MAX,
        ensures
            d == self.axis_delta_spec(a as int, b as int, axis as int),
            0 <= a < self.dim(axis as int) && 0 <= b < self.dim(axis as int) ==> 0 <= d < self.dim(
                axis as int,
            ),
    {
        let n = if axis == 0 {
            self.nx
        } else if axis == 1 {
            self.ny
        } else {
            self.nz
        };
        let d = if a >= b { a - b } else { b - a };
        if self.wrap[axis] && n - d < d {
            n - d
        } else {
            d
        }
    }

    /// Fold a coordinate into range on a wrapped axis; `None` off the end of
    /// an unwrapped one.
    pub fn fold(&self, v: i32, axis: usize) -> (r: Option<i32>)
        requires
            self.dims_ok(),
            axis < 3,
        ensures
            r is Some <==> self.fold_spec(v as int, axis as int) is Some,
            r matches Some(x) ==> self.fold_spec(v as int, axis as int) == Some(x as int) && 0 <= x
                < self.dim(axis as int),
    {
        self.fold_wide(v as i64, axis)
    }

    pub(crate) fn fold_wide(&self, v: i64, axis: usize) -> (r: Option<i32>)
        requires
            self.dims_ok(),
            axis < 3,
            i32::MIN - i32::MAX <= v <= i32::MAX + i32::MAX,
        ensures
            r is Some <==> self.fold_spec(v as int, axis as int) is Some,
            r matches Some(x) ==> self.fold_spec(v as int, axis as int) == Some(x as int) && 0 <= x
                < self.dim(axis as int),
    {
        let n: i64 = if axis == 0 {
            self.nx as i64
        } else if axis == 1 {
            self.ny as i64
        } else {
            self.nz as i64
        };
        if 0 <= v && v < n {
            Some(v as i32)
        } else if self.wrap[axis] {
            if v >= 0 {
                proof {
                    vstd::arithmetic::div_mod::lemma_mod_pos_bound(v as int, n as int);
                }
                let r = ((v as u64) % (n as u64)) as i64;
                Some(r as i32)
            } else {
                let k = ((-v) as u64) % (n as u64);
                proof {
                    Self::lemma_neg_mod(v as int, n as int, k as int);
                }
                if k == 0 {
                    Some(0)
                } else {
                    Some((n - k as i64) as i32)
                }
            }
        } else {
            None
        }
    }

    /// The neighbour `(dx, dy, dz)` away, wrap-aware, or `None` if it falls
    /// outside the box or outside the mask.
    pub fn neighbor(&self, from: u32, dx: i32, dy: i32, dz: i32) -> (r: Option<u32>)
        requires
            self.wf(),
            from < self.size(),
        ensures
            r is Some <==> self.neighbor_spec(from as int, dx as int, dy as int, dz as int) is Some,
            r matches Some(j) ==> self.neighbor_spec(from as int, dx as int, dy as int, dz as int)
                == Some(j as int),
    {
        let (x, y, z) = self.coords(from);
        let fx = self.fold_wide(x as i64 + dx as i64, 0)?;
        let fy = self.fold_wide(y as i64 + dy as i64, 1)?;
        let fz = self.fold_wide(z as i64 + dz as i64, 2)?;
        let j = self.idx(fx, fy, fz);
        if j == from || !self.exists_at(j) {
            None
        } else {
            Some(j)
        }
    }

    proof fn lemma_neg_mod(v: int, n: int, k: int)
        requires
            v < 0,
            n >= 1,
            k == (-v) % n,
        ensures
            k == 0 ==> v % n == 0,
            k != 0 ==> v % n == n - k,
    {
        let q = (-v) / n;
        vstd::arithmetic::div_mod::lemma_fundamental_div_mod(-v, n);
        vstd::arithmetic::div_mod::lemma_mod_pos_bound(-v, n);
        if k == 0 {
            assert(v == (-q) * n + 0) by (nonlinear_arith)
                requires
                    -v == n * q + k,
                    k == 0,
            ;
            vstd::arithmetic::div_mod::lemma_fundamental_div_mod_converse(v, n, -q, 0);
        } else {
            assert(v == (-q - 1) * n + (n - k)) by (nonlinear_arith)
                requires
                    -v == n * q + k,
            ;
            vstd::arithmetic::div_mod::lemma_fundamental_div_mod_converse(v, n, -q - 1, n - k);
        }
    }
}

} // verus!

verus! {

/// Sizes below four are raised to four.
pub open spec fn effective_size(n: u32) -> int {
    if n < 4 {
        4
    } else {
        n as int
    }
}

pub open spec fn max_int(a: int, b: int) -> int {
    if a < b {
        b
    } else {
        a
    }
}

/// Bore of the torus: about `0.42 n`, made odd so the bore has a centre cell,
/// and at least 5.
pub open spec fn torus_bore(n: int) -> int {
    let d = (42 * n + 50) / 100;
    max_int(5, if d % 2 == 0 { d + 1 } else { d })
}

/// `(nx, ny, nz)` of a preset at nominal size `n` (after raising it to 4).
pub open spec fn preset_dims(p: Preset, size: u32) -> (int, int, int) {
    let n = effective_size(size);
    match p {
        Preset::Prism => (n, max_int(6, (n + 1) / 2), max_int(8, (8 * n + 5) / 10)),
        Preset::Pyramid => (n, max_int(6, (3 * n + 2) / 4), n),
        Preset::Torus => (max_int(24, (24 * n + 5) / 10), torus_bore(n), torus_bore(n)),
        _ => (n, n, n),
    }
}

/// The preset's index space fits an `i32`.
pub open spec fn preset_fits(p: Preset, size: u32) -> bool {
    let (a, b, c) = preset_dims(p, size);
    a * b * c <= i32::MAX
}

/// Which cells of the preset's box are part of the world.
pub open spec fn preset_shape(p: Preset, size: u32, x: int, y: int, z: int) -> bool {
    let n = effective_size(size);
    let (nx, ny, nz) = preset_dims(p, size);
    match p {
        Preset::Pyramid => {
            // Each layer shrinks inward, keeping the apex at least 3 cells wide.
            let m = ((n - 3) / 2 * y) / (ny - 1);
            m <= x <= n - 1 - m && m <= z <= n - 1 - m
        },
        Preset::Sphere => {
            // Within radius (n-1)/2 + 0.2 of the centre, scaled by 10.
            let k = 5 * (n - 1);
            (10 * x - k) * (10 * x - k) + (10 * y - k) * (10 * y - k) + (10 * z - k) * (10 * z - k)
                <= (k + 2) * (k + 2)
        },
        Preset::Torus => {
            // A round bore of radius c + 0.2 around the centre row, scaled by 5.
            let c = (ny - 1) / 2;
            (5 * (y - c)) * (5 * (y - c)) + (5 * (z - c)) * (5 * (z - c)) <= (5 * c + 1) * (5
                * c + 1)
        },
        _ => true,
    }
}

/// Both endpoints of every preset lie inside its shape.
pub proof fn lemma_preset_endpoints_inside(p: Preset, size: u32)
    ensures
        ({
            let (s, g) = preset_endpoints(p, size);
            preset_shape(p, size, s.0, s.1, s.2) && preset_shape(p, size, g.0, g.1, g.2)
        }),
{
    let n = effective_size(size);
    let (nx, ny, nz) = preset_dims(p, size);
    match p {
        Preset::Pyramid => {
            let a = (n - 3) / 2;
            assert(ny >= 6);
            assert((a * 0) / (ny - 1) == 0) by (nonlinear_arith)
                requires
                    ny >= 6,
            ;
            vstd::arithmetic::div_mod::lemma_div_by_multiple(a, ny - 1);
            assert(a * (ny - 1) == (ny - 1) * a) by (nonlinear_arith);
        },
        Preset::Sphere => {
            let k = 5 * (n - 1);
            let e = 10 * (n / 2) - k;
            assert(e == 0 || e == 5);
            assert(e * e <= 25) by (nonlinear_arith)
                requires
                    e == 0 || e == 5,
            ;
            let f = 10 * 1 - k;
            let f2 = 10 * (n - 2) - k;
            assert(f2 == -f);
            assert(2 * (e * e) + f * f <= (k + 2) * (k + 2)) by (nonlinear_arith)
                requires
                    e * e <= 25,
                    f == 15 - 5 * n,
                    k == 5 * (n - 1),
                    n >= 4,
            ;
            assert(f2 * f2 == f * f) by (nonlinear_arith)
                requires
                    f2 == -f,
            ;
        },
        Preset::Torus => {
            let c = (ny - 1) / 2;
            assert(0 <= (5 * c + 1) * (5 * c + 1)) by (nonlinear_arith);
        },
        _ => {},
    }
}

/// Every layer of a pyramid, the top one included, keeps the 3x3 block of
/// columns around the centre of its base: the apex is at least 3 cells wide
/// along x and along z.
pub proof fn lemma_pyramid_layers_wide(d: Domain, size: u32, y: int, dx: int, dz: int)
    requires
        d.is_preset(Preset::Pyramid, size),
        0 <= y < d.ny,
        -1 <= dx <= 1,
        -1 <= dz <= 1,
    ensures
        d.cell_exists(d.index_of(d.nx / 2 + dx, y, d.nz / 2 + dz)),
{
    let n = effective_size(size);
    let ny = d.ny as int;
    let (x, z) = (d.nx / 2 + dx, d.nz / 2 + dz);
    assert(d.nx == n && d.nz == n && ny >= 6);
    d.lemma_index_of(x, y, z);
    let i = d.index_of(x, y, z);
    let a = (n - 3) / 2;
    assert(a * y <= a * (ny - 1)) by (nonlinear_arith)
        requires
            0 <= a,
            0 <= y <= ny - 1,
    ;
    assert(0 <= a * y) by (nonlinear_arith)
        requires
            0 <= a,
            0 <= y,
    ;
    vstd::arithmetic::div_mod::lemma_div_is_ordered(a * y, a * (ny - 1), ny - 1);
    vstd::arithmetic::div_mod::lemma_div_by_multiple(a, ny - 1);
    assert(a * (ny - 1) == (ny - 1) * a) by (nonlinear_arith);
    vstd::arithmetic::div_mod::lemma_div_pos_is_pos(a * y, ny - 1);
    let m = (a * y) / (ny - 1);
    assert(0 <= m <= a);
    assert(preset_shape(Preset::Pyramid, size, x, y, z));
    assert(d.exists@[i] == 1u8);
}

/// Start and goal coordinates of a preset.
pub open spec fn preset_endpoints(p: Preset, size: u32) -> ((int, int, int), (int, int, int)) {
    let n = effective_size(size);
    let (nx, ny, nz) = preset_dims(p, size);
    match p {
        Preset::Prism => ((1, 1, 1), (n - 2, ny - 2, nz - 2)),
        Preset::Pyramid => ((1, 0, 1), (n / 2, ny - 1, n / 2)),
        Preset::Sphere => ((n / 2, 1, n / 2), (n / 2, n - 2, n / 2)),
        Preset::Torus => ((2, (ny - 1) / 2, (ny - 1) / 2), (nx - 3, (ny - 1) / 2, (ny - 1) / 2)),
        Preset::Cube => ((1, 1, 1), (n - 2, n - 2, n - 2)),
    }
}

impl Domain {
    /// Wrap flags of a preset: only the torus wraps, and only along x.
    pub open spec fn preset_wrap(p: Preset) -> Seq<bool> {
        if p == Preset::Torus {
            seq![true, false, false]
        } else {
            seq![false, false, false]
        }
    }

    /// Whether `Domain::preset(p, size)` has an index space that fits.
    pub fn fits(p: Preset, size: u32) -> (b: bool)
        ensures
            b == preset_fits(p, size),
    {
        let (a, b, c) = Self::dims_of(p, size);
        proof {
            assert(0 <= a * b <= a * b * c) by (nonlinear_arith)
                requires
                    1 <= a,
                    1 <= b,
                    1 <= c,
            ;
            assert(a * b <= 0x100_0000_0000_0000_0000u128) by (nonlinear_arith)
                requires
                    a < 0x10_0000_0000,
                    b < 0x10_0000_0000,
                    0 <= a,
                    0 <= b,
            ;
        }
        let ab = (a as u128) * (b as u128);
        if ab > 0x7fff_ffff {
            return false;
        }
        proof {
            assert(ab * c <= 0x7fff_ffff * 0x10_0000_0000u128) by (nonlinear_arith)
                requires
                    ab <= 0x7fff_ffff,
                    c < 0x10_0000_0000,
                    0 <= c,
            ;
        }
        ab * (c as u128) <= 0x7fff_ffff
    }

    fn dims_of(p: Preset, size: u32) -> (d: (u64, u64, u64))
        ensures
            d.0 == preset_dims(p, size).0,
            d.1 == preset_dims(p, size).1,
            d.2 == preset_dims(p, size).2,
            1 <= d.0 < 0x10_0000_0000,
            1 <= d.1 < 0x10_0000_0000,
            1 <= d.2 < 0x10_0000_0000,
    {
        let n: u64 = if size < 4 {
            4
        } else {
            size as u64
        };
        match p {
            Preset::Prism => {
                let ny = (n + 1) / 2;
                let nz = (8 * n + 5) / 10;
                (n, if ny < 6 {
                    6
                } else {
                    ny
                }, if nz < 8 {
                    8
                } else {
                    nz
                })
            },
            Preset::Pyramid => {
                let ny = (3 * n + 2) / 4;
                (n, if ny < 6 {
                    6
                } else {
                    ny
                }, n)
            },
            Preset::Torus => {
                let nu = (24 * n + 5) / 10;
                let d0 = (42 * n + 50) / 100;
                let d1 = if d0 % 2 == 0 {
                    d0 + 1
                } else {
                    d0
                };
                let d = if d1 < 5 {
                    5
                } else {
                    d1
                };
                (if nu < 24 {
                    24
                } else {
                    nu
                }, d, d)
            },
            _ => (n, n, n),
        }
    }

    /// Whether cell `(x, y, z)` of the preset's box is part of the world.
    fn shape_at(p: Preset, size: u32, ny: i32, x: i32, y: i32, z: i32) -> (b: bool)
        requires
            ny == preset_dims(p, size).1,
            0 <= x,
            0 <= y,
            0 <= z,
        ensures
            b == preset_shape(p, size, x as int, y as int, z as int),
    {
        let n: i128 = if size < 4 {
            4
        } else {
            size as i128
        };
        let (x, y, z, ny) = (x as i128, y as i128, z as i128, ny as i128);
        proof {
            assert(0 <= (n - 3) / 2 * y <= 0x1_0000_0000 * 0x1_0000_0000) by (nonlinear_arith)
                requires
                    4 <= n <= 0x1_0000_0000,
                    0 <= y <= 0x1_0000_0000,
            ;
        }
        match p {
            Preset::Pyramid => {
                let m = ((n - 3) / 2 * y) / (ny - 1);
                m <= x && x <= n - 1 - m && m <= z && z <= n - 1 - m
            },
            Preset::Sphere => {
                let k = 5 * (n - 1);
                let (a, b, c) = (10 * x - k, 10 * y - k, 10 * z - k);
                proof {
                    lemma_square_bound(a as int);
                    lemma_square_bound(b as int);
                    lemma_square_bound(c as int);
                    lemma_square_bound((k + 2) as int);
                }
                a * a + b * b + c * c <= (k + 2) * (k + 2)
            },
            Preset::Torus => {
                let c = (ny - 1) / 2;
                let (a, b) = (5 * (y - c), 5 * (z - c));
                proof {
                    lemma_square_bound(a as int);
                    lemma_square_bound(b as int);
                    lemma_square_bound((5 * c + 1) as int);
                }
                a * a + b * b <= (5 * c + 1) * (5 * c + 1)
            },
            _ => true,
        }
    }

    /// What building preset `p` at nominal size `n` gives: its tag, its
    /// dimensions and wrap flags, the mask its shape carves out of the box,
    /// and its two endpoint cells.
    pub open spec fn is_preset(self, p: Preset, n: u32) -> bool {
        &&& self.wf()
        &&& self.preset == p
        &&& (self.nx as int, self.ny as int, self.nz as int) == preset_dims(p, n)
        &&& self.wrap@ == Domain::preset_wrap(p)
        &&& forall|i: int|
            0 <= i < self.size() ==> #[trigger] self.exists@[i] == if preset_shape(
                p,
                n,
                self.coord(i, 0),
                self.coord(i, 1),
                self.coord(i, 2),
            ) {
                1u8
            } else {
                0u8
            }
        &&& self.start == self.index_of(preset_endpoints(p, n).0.0, preset_endpoints(p, n).0.1, preset_endpoints(p, n).0.2)
        &&& self.goal == self.index_of(preset_endpoints(p, n).1.0, preset_endpoints(p, n).1.1, preset_endpoints(p, n).1.2)
        &&& self.count == count_ones(self.exists@)
        &&& self.start != self.goal
    }

    /// Build one of the named presets at nominal size `n`.
    pub fn preset(preset: Preset, n: u32) -> (d: Domain)
        requires
            preset_fits(preset, n),
        ensures
            d.wf(),
            d.preset == preset,
            (d.nx as int, d.ny as int, d.nz as int) == preset_dims(preset, n),
            d.wrap@ == Domain::preset_wrap(preset),
            forall|i: int|
                0 <= i < d.size() ==> #[trigger] d.exists@[i] == if preset_shape(
                    preset,
                    n,
                    d.coord(i, 0),
                    d.coord(i, 1),
                    d.coord(i, 2),
                ) {
                    1u8
                } else {
                    0u8
                },
            d.start == d.index_of(
                preset_endpoints(preset, n).0.0,
                preset_endpoints(preset, n).0.1,
                preset_endpoints(preset, n).0.2,
            ),
            d.goal == d.index_of(
                preset_endpoints(preset, n).1.0,
                preset_endpoints(preset, n).1.1,
                preset_endpoints(preset, n).1.2,
            ),
            d.count == count_ones(d.exists@),
            d.start != d.goal,
            d.is_preset(preset, n),
            d.cell_exists(d.start as int),
            d.cell_exists(d.goal as int),
    {
        let (a, b, c) = Self::dims_of(preset, n);
        proof {
            assert(a <= a * b * c && b <= a * b * c && c <= a * b * c) by (nonlinear_arith)
                requires
                    1 <= a,
                    1 <= b,
                    1 <= c,
            ;
        }
        let (nx, ny, nz) = (a as i32, b as i32, c as i32);
        let wrap = if preset == Preset::Torus {
            [true, false, false]
        } else {
            [false, false, false]
        };
        let mut d = Domain {
            preset,
            nx,
            ny,
            nz,
            wrap,
            exists: Vec::new(),
            start: 0,
            goal: 0,
            count: 0,
        };
        let total = d.total();
        let mut i: usize = 0;
        while i < total
            invariant
                d.dims_ok(),
                d.preset == preset,
                (d.nx as int, d.ny as int, d.nz as int) == preset_dims(preset, n),
                d.wrap == wrap,
                total == d.size(),
                i <= total,
                d.exists@.len() == i,
                d.count == count_ones(d.exists@),
                forall|j: int|
                    0 <= j < i ==> #[trigger] d.exists@[j] == if preset_shape(
                        preset,
                        n,
                        d.coord(j, 0),
                        d.coord(j, 1),
                        d.coord(j, 2),
                    ) {
                        1u8
                    } else {
                        0u8
                    },
            decreases total - i,
        {
            let (x, y, z) = d.coords(i as u32);
            let inside = Self::shape_at(preset, n, d.ny, x, y, z);
            proof {
                lemma_count_ones_push(d.exists@, if inside { 1u8 } else { 0u8 });
            }
            if inside {
                d.exists.push(1);
                d.count = d.count + 1;
            } else {
                d.exists.push(0);
            }
            i += 1;
        }
        let (sx, sy, sz, gx, gy, gz) = match preset {
            Preset::Prism => (1, 1, 1, nx - 2, ny - 2, nz - 2),
            Preset::Pyramid => (1, 0, 1, nx / 2, ny - 1, nx / 2),
            Preset::Sphere => (nx / 2, 1, nx / 2, nx / 2, nx - 2, nx / 2),
            Preset::Torus => (2, (ny - 1) / 2, (ny - 1) / 2, nx - 3, (ny - 1) / 2, (ny - 1) / 2),
            Preset::Cube => (1, 1, 1, nx - 2, nx - 2, nx - 2),
        };
        d.start = d.idx(sx, sy, sz);
        d.goal = d.idx(gx, gy, gz);
        proof {
            lemma_index_coords(nx as int, ny as int, nz as int, sx as int, sy as int, sz as int);
            lemma_index_coords(nx as int, ny as int, nz as int, gx as int, gy as int, gz as int);
            assert(sx != gx || sy != gy || sz != gz);
            d.lemma_index_of(sx as int, sy as int, sz as int);
            d.lemma_index_of(gx as int, gy as int, gz as int);
            lemma_preset_endpoints_inside(preset, n);
            assert(d.exists@[d.start as int] == 1u8);
            assert(d.exists@[d.goal as int] == 1u8);
        }
        d
    }

    /// A plain full lattice with no mask, from `(0,0,0)` to the far corner.
    pub fn raw(nx: u32, ny: u32, nz: u32, wrap: [bool; 3]) -> (d: Domain)
        requires
            1 <= nx,
            1 <= ny,
            1 <= nz,
            nx * ny * nz <= i32::MAX,
        ensures
            d.wf(),
            d.preset == Preset::Cube,
            d.nx == nx,
            d.ny == ny,
            d.nz == nz,
            d.wrap == wrap,
            forall|i: int| 0 <= i < d.size() ==> #[trigger] d.exists@[i] == 1u8,
            d.start == 0,
            d.goal == d.index_of(nx - 1, ny - 1, nz - 1),
            d.count == d.size(),
    {
        proof {
            assert(nx <= nx * ny * nz && ny <= nx * ny * nz && nz <= nx * ny * nz)
                by (nonlinear_arith)
                requires
                    1 <= nx,
                    1 <= ny,
                    1 <= nz,
            ;
        }
        let mut d = Domain {
            preset: Preset::Cube,
            nx: nx as i32,
            ny: ny as i32,
            nz: nz as i32,
            wrap,
            exists: Vec::new(),
            start: 0,
            goal: 0,
            count: 0,
        };
        let total = d.total();
        let mut i: usize = 0;
        while i < total
            invariant
                d.dims_ok(),
                d.nx == nx,
                d.ny == ny,
                d.nz == nz,
                d.wrap == wrap,
                d.preset == Preset::Cube,
                total == d.size(),
                i <= total,
                d.exists@.len() == i,
                d.count == i,
                d.start == 0,
                forall|j: int| 0 <= j < i ==> #[trigger] d.exists@[j] == 1u8,
            decreases total - i,
        {
            d.exists.push(1);
            d.count = d.count + 1;
            i += 1;
        }
        d.goal = d.idx(d.nx - 1, d.ny - 1, d.nz - 1);
        d
    }
}

} // verus!

verus! {

pub open spec fn abs_int(m: int) -> int {
    if m < 0 {
        -m
    } else {
        m
    }
}

impl Domain {
    /// A unit move along one axis lands within one (wrap-aware) step.
    pub proof fn lemma_fold_move(self, axis: int, c: int, m: int)
        requires
            self.dims_ok(),
            0 <= axis < 3,
            0 <= c < self.dim(axis),
            -1 <= m <= 1,
            self.fold_spec(c + m, axis) is Some,
        ensures
            0 <= self.fold_spec(c + m, axis).unwrap() < self.dim(axis),
            self.axis_delta_spec(c, self.fold_spec(c + m, axis).unwrap(), axis) <= abs_int(m),
            m == 0 ==> self.fold_spec(c + m, axis).unwrap() == c,
    {
        let n = self.dim(axis);
        if c + m < 0 {
            vstd::arithmetic::div_mod::lemma_fundamental_div_mod_converse(-1, n, -1, n - 1);
        } else if c + m >= n {
            vstd::arithmetic::div_mod::lemma_fundamental_div_mod_converse(n, n, 1, 0);
        }
    }

    /// Two coordinates at most one (wrap-aware) step apart are joined by a
    /// unit move whose size is their separation.
    pub proof fn lemma_move_exists(self, axis: int, c: int, c2: int) -> (m: int)
        requires
            self.dims_ok(),
            0 <= axis < 3,
            0 <= c < self.dim(axis),
            0 <= c2 < self.dim(axis),
            self.axis_delta_spec(c, c2, axis) <= 1,
        ensures
            -1 <= m <= 1,
            self.fold_spec(c + m, axis) == Some(c2),
            abs_int(m) == self.axis_delta_spec(c, c2, axis),
    {
        let n = self.dim(axis);
        if c2 == c {
            0
        } else if c2 == c + 1 {
            1
        } else if c2 == c - 1 {
            -1
        } else if c == 0 {
            vstd::arithmetic::div_mod::lemma_fundamental_div_mod_converse(-1, n, -1, n - 1);
            -1
        } else {
            vstd::arithmetic::div_mod::lemma_fundamental_div_mod_converse(n, n, 1, 0);
            1
        }
    }

    /// A stencil neighbour is an adjacent cell, no more axes away than the
    /// move touches.
    pub proof fn lemma_neighbor_adjacent(self, u: int, dx: int, dy: int, dz: int)
        requires
            self.wf(),
            0 <= u < self.size(),
            -1 <= dx <= 1,
            -1 <= dy <= 1,
            -1 <= dz <= 1,
            self.neighbor_spec(u, dx, dy, dz) is Some,
        ensures
            self.adjacent(u, self.neighbor_spec(u, dx, dy, dz).unwrap(), true),
            self.step_axes(u, self.neighbor_spec(u, dx, dy, dz).unwrap()) <= abs_int(dx) + abs_int(
                dy,
            ) + abs_int(dz),
    {
        let v = self.neighbor_spec(u, dx, dy, dz).unwrap();
        self.lemma_coords(u);
        let (x, y, z) = (self.coord(u, 0), self.coord(u, 1), self.coord(u, 2));
        self.lemma_fold_move(0, x, dx);
        self.lemma_fold_move(1, y, dy);
        self.lemma_fold_move(2, z, dz);
        let (a, b, c) = (
            self.fold_spec(x + dx, 0).unwrap(),
            self.fold_spec(y + dy, 1).unwrap(),
            self.fold_spec(z + dz, 2).unwrap(),
        );
        self.lemma_index_of(a, b, c);
    }

    /// The opposite unit move along an axis undoes a move.
    proof fn lemma_fold_back(self, axis: int, c: int, m: int)
        requires
            self.dims_ok(),
            0 <= axis < 3,
            0 <= c < self.dim(axis),
            -1 <= m <= 1,
            self.fold_spec(c + m, axis) is Some,
        ensures
            self.fold_spec(self.fold_spec(c + m, axis).unwrap() - m, axis) == Some(c),
    {
        let n = self.dim(axis);
        if c + m < 0 {
            vstd::arithmetic::div_mod::lemma_fundamental_div_mod_converse(-1, n, -1, n - 1);
            if n == 1 {
                vstd::arithmetic::div_mod::lemma_fundamental_div_mod_converse(1, 1, 1, 0);
            } else {
                vstd::arithmetic::div_mod::lemma_fundamental_div_mod_converse(n, n, 1, 0);
            }
        } else if c + m >= n {
            vstd::arithmetic::div_mod::lemma_fundamental_div_mod_converse(n, n, 1, 0);
            vstd::arithmetic::div_mod::lemma_fundamental_div_mod_converse(-1, n, -1, n - 1);
        }
    }

    /// Moves are symmetric: when the move `(dx, dy, dz)` from an existing
    /// cell `u` lands on `v`, the opposite move from `v` lands back on `u`.
    pub proof fn lemma_neighbor_symmetric(self, u: int, dx: int, dy: int, dz: int)
        requires
            self.wf(),
            self.cell_exists(u),
            -1 <= dx <= 1,
            -1 <= dy <= 1,
            -1 <= dz <= 1,
            self.neighbor_spec(u, dx, dy, dz) is Some,
        ensures
            self.cell_exists(self.neighbor_spec(u, dx, dy, dz).unwrap()),
            self.neighbor_spec(u, dx, dy, dz).unwrap() != u,
            self.neighbor_spec(self.neighbor_spec(u, dx, dy, dz).unwrap(), -dx, -dy, -dz) == Some(u),
    {
        let v = self.neighbor_spec(u, dx, dy, dz).unwrap();
        self.lemma_coords(u);
        let (x, y, z) = (self.coord(u, 0), self.coord(u, 1), self.coord(u, 2));
        self.lemma_fold_move(0, x, dx);
        self.lemma_fold_move(1, y, dy);
        self.lemma_fold_move(2, z, dz);
        self.lemma_fold_back(0, x, dx);
        self.lemma_fold_back(1, y, dy);
        self.lemma_fold_back(2, z, dz);
        let (a, b, c) = (
            self.fold_spec(x + dx, 0).unwrap(),
            self.fold_spec(y + dy, 1).unwrap(),
            self.fold_spec(z + dz, 2).unwrap(),
        );
        self.lemma_index_of(a, b, c);
        assert(v == self.index_of(a, b, c));
        assert(a + -dx == a - dx);
        assert(b + -dy == b - dy);
        assert(c + -dz == c - dz);
    }

    /// Every adjacent cell is reached by a stencil move touching exactly as
    /// many axes as the cells are apart.
    pub proof fn lemma_adjacent_move(self, u: int, v: int) -> (m: (int, int, int))
        requires
            self.wf(),
            self.adjacent(u, v, true),
        ensures
            -1 <= m.0 <= 1,
            -1 <= m.1 <= 1,
            -1 <= m.2 <= 1,
            self.neighbor_spec(u, m.0, m.1, m.2) == Some(v),
            abs_int(m.0) + abs_int(m.1) + abs_int(m.2) == self.step_axes(u, v),
    {
        self.lemma_coords(u);
        self.lemma_coords(v);
        let mx = self.lemma_move_exists(0, self.coord(u, 0), self.coord(v, 0));
        let my = self.lemma_move_exists(1, self.coord(u, 1), self.coord(v, 1));
        let mz = self.lemma_move_exists(2, self.coord(u, 2), self.coord(v, 2));
        (mx, my, mz)
    }
}

} // verus!
