//! Integer geometry of the tree: positions, cubes, sectants and brick indexing.
use vstd::prelude::*;

verus! {

/// Number of children along one axis of a node
pub const BOX_NODE_DIMENSION: usize = 4;

/// Number of children of a node
pub const BOX_NODE_CHILDREN_COUNT: usize = 64;

/// The sectant meaning "no child": outside of the 64 children of a node
pub const OOB_SECTANT: u8 = 64;

/// A three component vector
#[derive(Debug, Clone, Copy, PartialEq, Eq, Hash, Default)]
pub struct V3c<T> {
    pub x: T,
    pub y: T,
    pub z: T,
}

impl<T> V3c<T> {
    pub fn new(x: T, y: T, z: T) -> (r: V3c<T>)
        ensures
            r.x == x,
            r.y == y,
            r.z == z,
    {
        V3c { x, y, z }
    }
}

impl<T: Copy> V3c<T> {
    /// A vector with the same value in every component
    pub fn unit(scale: T) -> (r: V3c<T>)
        ensures
            r.x == scale,
            r.y == scale,
            r.z == scale,
    {
        V3c { x: scale, y: scale, z: scale }
    }
}

/// An axis aligned cube: `min_position` is its corner closest to the origin,
/// it spans `size` units along every axis
#[derive(Debug, Clone, Copy, PartialEq, Eq)]
pub struct Cube {
    pub min_position: V3c<u32>,
    pub size: u32,
}

/// True if the given position lies inside the cube
pub open spec fn cube_contains(c: Cube, p: V3c<u32>) -> bool {
    &&& c.min_position.x <= p.x < c.min_position.x + c.size
    &&& c.min_position.y <= p.y < c.min_position.y + c.size
    &&& c.min_position.z <= p.z < c.min_position.z + c.size
}

/// The cube fits into the u32 coordinate range
pub open spec fn cube_fits(c: Cube) -> bool {
    &&& c.min_position.x + c.size <= u32::MAX + 1
    &&& c.min_position.y + c.size <= u32::MAX + 1
    &&& c.min_position.z + c.size <= u32::MAX + 1
}

/// A cube can be split into 4x4x4 children of equal integer size
pub open spec fn cube_splittable(c: Cube) -> bool {
    c.size >= 4 && c.size % 4 == 0
}

/// Index of the child along one axis, for an offset from the cube's corner
pub open spec fn axis_child(offset: int, size: int) -> int {
    offset / (size / 4)
}

/// Sectant of the child of the cube containing the given position:
/// `x + 4 * y + 16 * z` of the child's index
pub open spec fn sectant_of(c: Cube, p: V3c<u32>) -> int {
    axis_child(p.x - c.min_position.x, c.size as int) + 4 * axis_child(
        p.y - c.min_position.y,
        c.size as int,
    ) + 16 * axis_child(p.z - c.min_position.z, c.size as int)
}

/// The bounds of the child of the cube at the given sectant
pub open spec fn child_cube(c: Cube, sectant: int) -> Cube {
    let step = c.size / 4;
    Cube {
        min_position: V3c {
            x: (c.min_position.x + (sectant % 4) * step) as u32,
            y: (c.min_position.y + ((sectant / 4) % 4) * step) as u32,
            z: (c.min_position.z + (sectant / 16) * step) as u32,
        },
        size: step as u32,
    }
}

/// Flat index of a cell inside a brick of `dim`^3 cells, x running fastest
pub open spec fn flat_index(x: int, y: int, z: int, dim: int) -> int {
    x + y * dim + z * dim * dim
}

/// Index of the cell along one axis inside a brick of `dim` cells covering `size` units
pub open spec fn axis_cell(offset: int, dim: int, size: int) -> int {
    (offset * dim) / size
}

/// Flat index of the cell of a `dim`^3 brick laid over the cube that covers the position
pub open spec fn brick_index_of(c: Cube, p: V3c<u32>, dim: int) -> int {
    flat_index(
        axis_cell(p.x - c.min_position.x, dim, c.size as int),
        axis_cell(p.y - c.min_position.y, dim, c.size as int),
        axis_cell(p.z - c.min_position.z, dim, c.size as int),
        dim,
    )
}

proof fn lemma_axis_child(offset: int, size: int)
    requires
        size >= 4,
        size % 4 == 0,
        0 <= offset < size,
    ensures
        0 <= axis_child(offset, size) < 4,
        axis_child(offset, size) * (size / 4) <= offset < (axis_child(offset, size) + 1) * (
        size / 4),
{
    let step = size / 4;
    assert(step * 4 == size);
    assert(step > 0);
    vstd::arithmetic::div_mod::lemma_fundamental_div_mod(offset, step);
    let q = offset / step;
    let r = offset % step;
    assert(0 <= r < step);
    assert(offset == step * q + r);
    assert(q >= 0) by (nonlinear_arith)
        requires
            offset == step * q + r,
            0 <= r < step,
            offset >= 0,
            step > 0,
    ;
    assert(q < 4) by (nonlinear_arith)
        requires
            offset == step * q + r,
            0 <= r < step,
            offset < step * 4,
            step > 0,
    ;
    assert(q * step <= offset < (q + 1) * step) by (nonlinear_arith)
        requires
            offset == step * q + r,
            0 <= r < step,
    ;
}

proof fn lemma_axis_child_unique(offset: int, size: int, q: int)
    requires
        size >= 4,
        size % 4 == 0,
        0 <= q,
        q * (size / 4) <= offset < (q + 1) * (size / 4),
    ensures
        axis_child(offset, size) == q,
{
    let step = size / 4;
    assert(step > 0);
    let r = offset - q * step;
    assert(0 <= r < step) by (nonlinear_arith)
        requires
            r == offset - q * step,
            q * step <= offset < (q + 1) * step,
    ;
    vstd::arithmetic::div_mod::lemma_div_multiples_vanish_fancy(q, r, step);
    assert(offset == step * q + r) by (nonlinear_arith)
        requires
            r == offset - q * step,
    ;
}

/// The child of a cube at the sectant of a position contains the position,
/// and that is the only child that does.
pub(crate) proof fn lemma_sectant_of(c: Cube, p: V3c<u32>)
    requires
        cube_splittable(c),
        cube_contains(c, p),
        cube_fits(c),
    ensures
        0 <= sectant_of(c, p) < 64,
        cube_contains(child_cube(c, sectant_of(c, p)), p),
        cube_fits(child_cube(c, sectant_of(c, p))),
        forall|s: int| 0 <= s < 64 && s != sectant_of(c, p) ==> !cube_contains(#[trigger] child_cube(c, s), p),
{
    let size = c.size as int;
    let ox = p.x - c.min_position.x;
    let oy = p.y - c.min_position.y;
    let oz = p.z - c.min_position.z;
    lemma_axis_child(ox, size);
    lemma_axis_child(oy, size);
    lemma_axis_child(oz, size);
    let qx = axis_child(ox, size);
    let qy = axis_child(oy, size);
    let qz = axis_child(oz, size);
    let s = sectant_of(c, p);
    assert(s == qx + 4 * qy + 16 * qz);
    assert(s % 4 == qx && (s / 4) % 4 == qy && s / 16 == qz);
    let step = size / 4;
    assert(step * 4 == size);
    assert(qx * step <= ox < (qx + 1) * step);
    assert((qx + 1) * step <= size) by (nonlinear_arith)
        requires qx < 4, step >= 0, step * 4 == size;
    assert((qy + 1) * step <= size) by (nonlinear_arith)
        requires qy < 4, step >= 0, step * 4 == size;
    assert((qz + 1) * step <= size) by (nonlinear_arith)
        requires qz < 4, step >= 0, step * 4 == size;
    assert forall|s2: int| 0 <= s2 < 64 && s2 != s implies !cube_contains(#[trigger] child_cube(c, s2), p) by {
        let a = s2 % 4;
        let b = (s2 / 4) % 4;
        let d = s2 / 16;
        assert(s2 == a + 4 * b + 16 * d);
        assert(0 <= a < 4 && 0 <= b < 4 && 0 <= d < 4);
        assert((a + 1) * step <= size) by (nonlinear_arith)
            requires a < 4, step >= 0, step * 4 == size;
        assert((b + 1) * step <= size) by (nonlinear_arith)
            requires b < 4, step >= 0, step * 4 == size;
        assert((d + 1) * step <= size) by (nonlinear_arith)
            requires d < 4, step >= 0, step * 4 == size;
        assert(a * step <= 3 * step && b * step <= 3 * step && d * step <= 3 * step)
            by (nonlinear_arith)
            requires a < 4, b < 4, d < 4, a >= 0, b >= 0, d >= 0, step >= 0;
        assert(a * step >= 0 && b * step >= 0 && d * step >= 0) by (nonlinear_arith)
            requires a >= 0, b >= 0, d >= 0, step >= 0;
        let cc = child_cube(c, s2);
        assert(cc.min_position.x == c.min_position.x + a * step);
        assert(cc.min_position.y == c.min_position.y + b * step);
        assert(cc.min_position.z == c.min_position.z + d * step);
        if cube_contains(child_cube(c, s2), p) {
            assert(a * step <= ox < a * step + step);
            assert((a + 1) * step == a * step + step) by (nonlinear_arith);
            assert((b + 1) * step == b * step + step) by (nonlinear_arith);
            assert((d + 1) * step == d * step + step) by (nonlinear_arith);
            lemma_axis_child_unique(ox, size, a);
            lemma_axis_child_unique(oy, size, b);
            lemma_axis_child_unique(oz, size, d);
        }
    }
    assert((qx + 1) * step == qx * step + step) by (nonlinear_arith);
    assert((qy + 1) * step == qy * step + step) by (nonlinear_arith);
    assert((qz + 1) * step == qz * step + step) by (nonlinear_arith);
}

/// The first cube lies inside the second
pub open spec fn cube_within(a: Cube, b: Cube) -> bool {
    &&& b.min_position.x <= a.min_position.x && a.min_position.x + a.size <= b.min_position.x + b.size
    &&& b.min_position.y <= a.min_position.y && a.min_position.y + a.size <= b.min_position.y + b.size
    &&& b.min_position.z <= a.min_position.z && a.min_position.z + a.size <= b.min_position.z + b.size
}

/// A child lies inside its parent
pub(crate) proof fn lemma_child_within(c: Cube, s: int)
    requires
        cube_splittable(c),
        cube_fits(c),
        0 <= s < 64,
    ensures
        cube_within(child_cube(c, s), c),
{
    lemma_child_cube(c, s);
    let ch = child_cube(c, s);
    let lo = ch.min_position;
    let hi = V3c { x: (lo.x + ch.size - 1) as u32, y: (lo.y + ch.size - 1) as u32, z: (lo.z + ch.size - 1) as u32 };
    assert(ch.size >= 1);
    assert(cube_contains(ch, lo));
    assert(cube_contains(ch, hi));
    assert(cube_contains(c, lo));
    assert(cube_contains(c, hi));
}

/// A cube that is not empty lies inside at most one child of a cube
pub(crate) proof fn lemma_within_one_child(c: Cube, a: Cube, s: int, t: int)
    requires
        cube_splittable(c),
        cube_fits(c),
        0 <= s < 64,
        0 <= t < 64,
        a.size >= 1,
        cube_within(a, child_cube(c, s)),
        cube_within(a, child_cube(c, t)),
    ensures
        s == t,
{
    lemma_child_within(c, s);
    let p = a.min_position;
    assert(cube_contains(child_cube(c, s), p));
    assert(cube_contains(c, p));
    lemma_sectant_of(c, p);
    assert(cube_contains(child_cube(c, t), p));
}

/// Children of a splittable cube fit and lie inside their parent
pub(crate) proof fn lemma_child_cube(c: Cube, s: int)
    requires
        cube_splittable(c),
        cube_fits(c),
        0 <= s < 64,
    ensures
        cube_fits(child_cube(c, s)),
        child_cube(c, s).size * 4 == c.size,
        forall|p: V3c<u32>| cube_contains(child_cube(c, s), p) ==> #[trigger] cube_contains(c, p),
{
    let size = c.size as int;
    let step = size / 4;
    assert(step * 4 == size);
    let a = s % 4;
    let b = (s / 4) % 4;
    let d = s / 16;
    assert(0 <= a < 4 && 0 <= b < 4 && 0 <= d < 4);
    assert((a + 1) * step <= size) by (nonlinear_arith)
        requires a < 4, step >= 0, step * 4 == size;
    assert((b + 1) * step <= size) by (nonlinear_arith)
        requires b < 4, step >= 0, step * 4 == size;
    assert((d + 1) * step <= size) by (nonlinear_arith)
        requires d < 4, step >= 0, step * 4 == size;
    assert(a * step + step == (a + 1) * step) by (nonlinear_arith);
    assert(b * step + step == (b + 1) * step) by (nonlinear_arith);
    assert(d * step + step == (d + 1) * step) by (nonlinear_arith);
    assert(a * step >= 0 && b * step >= 0 && d * step >= 0) by (nonlinear_arith)
        requires a >= 0, b >= 0, d >= 0, step >= 0;
}

/// Splitting a flat index `i * (ny * nz) + j * nz + k` back into its three parts
pub(crate) proof fn lemma_flat3(i: int, j: int, k: int, ny: int, nz: int)
    requires
        0 <= j < ny,
        0 <= k < nz,
        0 <= i,
    ensures
        (i * (ny * nz) + j * nz + k) / (ny * nz) == i,
        ((i * (ny * nz) + j * nz + k) / nz) % ny == j,
        (i * (ny * nz) + j * nz + k) % nz == k,
{
    let t = i * (ny * nz) + j * nz + k;
    assert(j * nz + k < ny * nz) by (nonlinear_arith)
        requires 0 <= j < ny, 0 <= k < nz;
    assert(j * nz + k >= 0) by (nonlinear_arith)
        requires 0 <= j, 0 <= k, nz > 0;
    vstd::arithmetic::div_mod::lemma_fundamental_div_mod_converse(t, ny * nz, i, j * nz + k);
    assert(t == (i * ny + j) * nz + k) by (nonlinear_arith)
        requires t == i * (ny * nz) + j * nz + k;
    vstd::arithmetic::div_mod::lemma_fundamental_div_mod_converse(t, nz, i * ny + j, k);
    vstd::arithmetic::div_mod::lemma_fundamental_div_mod_converse(i * ny + j, ny, i, j);
}

impl Cube {
    /// Creates boundaries starting from (0,0,0), with the given size
    pub fn root_bounds(size: u32) -> (c: Cube)
        ensures
            c.min_position == (V3c { x: 0u32, y: 0u32, z: 0u32 }),
            c.size == size,
            cube_fits(c),
    {
        Cube { min_position: V3c { x: 0, y: 0, z: 0 }, size }
    }

    /// True if the given position is within the boundaries of the object
    pub fn contains(&self, position: &V3c<u32>) -> (r: bool)
        ensures
            r == cube_contains(*self, *position),
    {
        let mx = self.min_position.x as u64;
        let my = self.min_position.y as u64;
        let mz = self.min_position.z as u64;
        let s = self.size as u64;
        (position.x as u64) >= mx && (position.y as u64) >= my && (position.z as u64) >= mz
            && (position.x as u64) < mx + s && (position.y as u64) < my + s
            && (position.z as u64) < mz + s
    }

    /// Sectant of the child containing the given position
    pub fn sectant_for(&self, position: &V3c<u32>) -> (s: u8)
        requires
            cube_splittable(*self),
            cube_contains(*self, *position),
            cube_fits(*self),
        ensures
            s == sectant_of(*self, *position),
            s < 64,
    {
        proof {
            lemma_sectant_of(*self, *position);
        }
        let step = self.size / 4;
        let qx = (position.x - self.min_position.x) / step;
        let qy = (position.y - self.min_position.y) / step;
        let qz = (position.z - self.min_position.z) / step;
        (qx + 4 * qy + 16 * qz) as u8
    }

    /// Creates a bounding box within an area described by the min_position and size, for the given sectant
    pub fn child_bounds_for(&self, sectant: u8) -> (c: Cube)
        requires
            cube_splittable(*self),
            cube_fits(*self),
            sectant < 64,
        ensures
            c == child_cube(*self, sectant as int),
            cube_fits(c),
            c.size * 4 == self.size,
    {
        proof {
            lemma_child_cube(*self, sectant as int);
        }
        let step = self.size / 4;
        let s = sectant as u32;
        let a = s % 4;
        let b = (s / 4) % 4;
        let d = s / 16;
        assert(a * step <= 3 * step && b * step <= 3 * step && d * step <= 3 * step)
            by (nonlinear_arith)
            requires a < 4, b < 4, d < 4;
        assert(3 * step < self.size);
        Cube {
            min_position: V3c {
                x: self.min_position.x + a * step,
                y: self.min_position.y + b * step,
                z: self.min_position.z + d * step,
            },
            size: step,
        }
    }
}

/// Flat index of a cell inside a brick of `dim`^3 cells
pub fn flat_projection(x: usize, y: usize, z: usize, dim: usize) -> (r: usize)
    requires
        x < dim,
        y < dim,
        z < dim,
        dim * dim * dim <= usize::MAX,
    ensures
        r == flat_index(x as int, y as int, z as int, dim as int),
        r < dim * dim * dim,
{
    assert(x + y * dim + z * dim * dim < dim * dim * dim) by (nonlinear_arith)
        requires x < dim, y < dim, z < dim;
    assert(y * dim <= dim * dim && z * dim * dim <= dim * dim * dim) by (nonlinear_arith)
        requires y < dim, z < dim;
    assert(z * dim <= dim * dim && dim * dim <= dim * dim * dim) by (nonlinear_arith)
        requires z < dim;
    x + y * dim + z * dim * dim
}

/// The cell index along one axis, computed without overflow
fn axis_cell_exec(offset: u32, dim: u32, size: u32) -> (r: usize)
    requires
        offset < size,
        0 < dim,
    ensures
        r == axis_cell(offset as int, dim as int, size as int),
        r < dim,
{
    assert((offset as u64) * (dim as u64) <= 0xffff_ffff * 0xffff_ffff) by (nonlinear_arith)
        requires offset <= 0xffff_ffff, dim <= 0xffff_ffff;
    let prod = (offset as u64) * (dim as u64);
    assert(offset * dim < dim * size) by (nonlinear_arith)
        requires offset < size, 0 < dim;
    assert((offset * dim) / (size as int) < dim) by {
        vstd::arithmetic::div_mod::lemma_div_by_multiple_is_strongly_ordered(
            offset * dim, dim * size, dim as int, size as int);
        vstd::arithmetic::div_mod::lemma_div_by_multiple(dim as int, size as int);
    }
    (prod / (size as u64)) as usize
}

/// Index of the cell of a `brick_dim`^3 brick laid over `bounds` that covers the position
pub fn matrix_index_for(bounds: &Cube, position: &V3c<u32>, brick_dim: u32) -> (r: V3c<usize>)
    requires
        cube_contains(*bounds, *position),
        0 < brick_dim,
    ensures
        r.x == axis_cell(position.x - bounds.min_position.x, brick_dim as int, bounds.size as int),
        r.y == axis_cell(position.y - bounds.min_position.y, brick_dim as int, bounds.size as int),
        r.z == axis_cell(position.z - bounds.min_position.z, brick_dim as int, bounds.size as int),
        r.x < brick_dim,
        r.y < brick_dim,
        r.z < brick_dim,
{
    V3c {
        x: axis_cell_exec(position.x - bounds.min_position.x, brick_dim, bounds.size),
        y: axis_cell_exec(position.y - bounds.min_position.y, brick_dim, bounds.size),
        z: axis_cell_exec(position.z - bounds.min_position.z, brick_dim, bounds.size),
    }
}

} // verus!
