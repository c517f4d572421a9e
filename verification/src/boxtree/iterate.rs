//! Splitting an update range over the children of a node.
use vstd::prelude::*;
use crate::spatial::{Cube, V3c, cube_contains, cube_fits, cube_splittable, child_cube, sectant_of, lemma_flat3, lemma_sectant_of};

verus! {

/// The part of an update range that falls into one child of a node
#[derive(Debug, Clone, Copy, PartialEq, Eq)]
pub struct SectantUpdate {
    /// Where the update starts inside the child
    pub position_in_target: V3c<u32>,
    /// The extent of the update inside the child
    pub update_size_in_target: V3c<u32>,
    /// The sectant of the child
    pub target_child_sectant: u8,
    /// The bounds of the child
    pub target_bounds: Cube,
}

/// Number of positions `start, start + cell, ...` not beyond `start + extent`
pub open spec fn step_count(extent: int, cell: int) -> int {
    if extent < 0 {
        0
    } else {
        extent / cell + 1
    }
}

pub open spec fn max_int(a: int, b: int) -> int {
    if a >= b { a } else { b }
}

pub open spec fn min_int(a: int, b: int) -> int {
    if a <= b { a } else { b }
}

/// What the update starting at `start` with extent `extent` (per axis) gives for the child
/// of `nb` containing the probe position `(x, y, z)`, if anything
pub open spec fn probe_update(nb: Cube, start: (int, int, int), extent: (int, int, int), x: int, y: int, z: int) -> Option<SectantUpdate> {
    if !(0 <= x <= u32::MAX && 0 <= y <= u32::MAX && 0 <= z <= u32::MAX) {
        None
    } else {
        let probe = V3c { x: x as u32, y: y as u32, z: z as u32 };
        if !cube_contains(nb, probe) {
            None
        } else {
            let s = sectant_of(nb, probe);
            let tb = child_cube(nb, s);
            let px = max_int(start.0, tb.min_position.x as int);
            let py = max_int(start.1, tb.min_position.y as int);
            let pz = max_int(start.2, tb.min_position.z as int);
            let ux = min_int(tb.min_position.x + tb.size - px, start.0 + extent.0 - px);
            let uy = min_int(tb.min_position.y + tb.size - py, start.1 + extent.1 - py);
            let uz = min_int(tb.min_position.z + tb.size - pz, start.2 + extent.2 - pz);
            if 0 < ux && 0 < uy && 0 < uz {
                Some(
                    SectantUpdate {
                        position_in_target: V3c { x: px as u32, y: py as u32, z: pz as u32 },
                        update_size_in_target: V3c { x: ux as u32, y: uy as u32, z: uz as u32 },
                        target_child_sectant: s as u8,
                        target_bounds: tb,
                    },
                )
            } else {
                None
            }
        }
    }
}

/// The probes stepping by the child size from the start of the update, x running slowest
#[verifier::opaque]
pub open spec fn probes(nb: Cube, start: (int, int, int), extent: (int, int, int)) -> Seq<Option<SectantUpdate>> {
    let cell = nb.size / 4;
    let nx = step_count(extent.0, cell as int);
    let ny = step_count(extent.1, cell as int);
    let nz = step_count(extent.2, cell as int);
    Seq::new(
        (nx * ny * nz) as nat,
        |t: int| probe_update(
            nb,
            start,
            extent,
            start.0 + (t / (ny * nz)) * cell,
            start.1 + ((t / nz) % ny) * cell,
            start.2 + (t % nz) * cell,
        ),
    )
}

/// The updates present in a sequence of optional updates, in order
pub open spec fn present_updates(s: Seq<Option<SectantUpdate>>) -> Seq<SectantUpdate>
    decreases s.len(),
{
    if s.len() == 0 {
        Seq::empty()
    } else {
        let rest = present_updates(s.drop_last());
        match s.last() {
            Some(u) => rest.push(u),
            None => rest,
        }
    }
}

/// Where an update of the given size at the given position starts inside the node
/// (the position pulled up to the node's corner), and how far it reaches from there
pub open spec fn clipped_update(nb: Cube, position: V3c<u32>, update_size: u32) -> ((int, int, int), (int, int, int)) {
    let sx = max_int(position.x as int, nb.min_position.x as int);
    let sy = max_int(position.y as int, nb.min_position.y as int);
    let sz = max_int(position.z as int, nb.min_position.z as int);
    (
        (sx, sy, sz),
        (position.x + update_size - sx, position.y + update_size - sy, position.z + update_size - sz),
    )
}

/// The update reaches beyond the far corner of the node along some axis
pub open spec fn update_beyond(nb: Cube, position: V3c<u32>) -> bool {
    position.x > nb.min_position.x + nb.size || position.y > nb.min_position.y + nb.size
        || position.z > nb.min_position.z + nb.size
}

/// Length of the probe sequence, and the probe at the flat index of step `(i, j, k)`
proof fn lemma_probe_at_index(nb: Cube, start: (int, int, int), extent: (int, int, int), i: int, j: int, k: int)
    requires
        nb.size / 4 > 0,
        0 <= i,
        0 <= j < step_count(extent.1, (nb.size / 4) as int),
        0 <= k < step_count(extent.2, (nb.size / 4) as int),
    ensures
        probes(nb, start, extent).len() == step_count(extent.0, (nb.size / 4) as int) * step_count(extent.1, (nb.size / 4) as int) * step_count(extent.2, (nb.size / 4) as int),
        i < step_count(extent.0, (nb.size / 4) as int) ==> probes(nb, start, extent)[i * (step_count(extent.1, (nb.size / 4) as int) * step_count(extent.2, (nb.size / 4) as int)) + j * step_count(extent.2, (nb.size / 4) as int) + k]
            == probe_update(nb, start, extent, start.0 + i * ((nb.size / 4) as int), start.1 + j * ((nb.size / 4) as int), start.2 + k * ((nb.size / 4) as int)),
{
    reveal(probes);
    let cell = nb.size / 4;
    let nx = step_count(extent.0, cell as int);
    let ny = step_count(extent.1, cell as int);
    let nz = step_count(extent.2, cell as int);
    lemma_step_count(extent.0, cell as int, 0);
    assert(nx * ny * nz >= 0) by (nonlinear_arith)
        requires nx >= 0, ny >= 0, nz >= 0;
    if i < nx {
        lemma_flat3(i, j, k, ny, nz);
        lemma_flat_bounds(i, j, k, nx, ny, nz);
    }
}

/// Length of the probe sequence
proof fn lemma_probes_len(nb: Cube, start: (int, int, int), extent: (int, int, int))
    requires
        nb.size / 4 > 0,
    ensures
        probes(nb, start, extent).len() == step_count(extent.0, (nb.size / 4) as int) * step_count(extent.1, (nb.size / 4) as int) * step_count(extent.2, (nb.size / 4) as int),
{
    reveal(probes);
    let cell = nb.size / 4;
    lemma_step_count(extent.0, cell as int, 0);
    lemma_step_count(extent.1, cell as int, 0);
    lemma_step_count(extent.2, cell as int, 0);
    let nx = step_count(extent.0, cell as int);
    let ny = step_count(extent.1, cell as int);
    let nz = step_count(extent.2, cell as int);
    assert(nx * ny * nz >= 0) by (nonlinear_arith)
        requires nx >= 0, ny >= 0, nz >= 0;
}

/// The part lies in the child of `nb` it names: the child is one of the 64, and the part's
/// cube is the child cube at that sectant
pub open spec fn update_in_child(nb: Cube, u: SectantUpdate) -> bool {
    u.target_child_sectant < 64 && u.target_bounds == child_cube(nb, u.target_child_sectant as int)
}

/// The updates present in a sequence all lie in their children where the sequence's do
proof fn lemma_present_in_children(nb: Cube, s: Seq<Option<SectantUpdate>>)
    requires
        forall|t: int| 0 <= t < s.len() ==> (#[trigger] s[t] matches Some(u) ==> update_in_child(nb, u)),
    ensures
        forall|j: int| 0 <= j < present_updates(s).len() ==> update_in_child(nb, #[trigger] present_updates(s)[j]),
    decreases s.len(),
{
    if s.len() > 0 {
        let d = s.drop_last();
        assert forall|t: int| 0 <= t < d.len() implies (#[trigger] d[t] matches Some(u) ==> update_in_child(nb, u)) by {
            assert(d[t] == s[t]);
        }
        lemma_present_in_children(nb, d);
        assert(s.last() == s[s.len() - 1]);
        let rest = present_updates(d);
        assert forall|j: int| 0 <= j < present_updates(s).len() implies update_in_child(nb, #[trigger] present_updates(s)[j]) by {
            match s.last() {
                Some(u) => {
                    assert(present_updates(s) == rest.push(u));
                    if j < rest.len() {
                        assert(present_updates(s)[j] == rest[j]);
                    }
                },
                None => {
                    assert(present_updates(s) == rest);
                },
            }
        }
    }
}

/// Every part `execute_for_relevant_sectants` lists for a node lies in the child it names:
/// the child is one of the 64 and the part's cube is the child cube of the node at that sectant
pub proof fn lemma_updates_in_children(nb: Cube, start: (int, int, int), extent: (int, int, int))
    requires
        cube_splittable(nb),
        cube_fits(nb),
    ensures
        forall|j: int| 0 <= j < present_updates(probes(nb, start, extent)).len()
            ==> update_in_child(nb, #[trigger] present_updates(probes(nb, start, extent))[j]),
{
    let s = probes(nb, start, extent);
    assert forall|t: int| 0 <= t < s.len() implies (#[trigger] s[t] matches Some(u) ==> update_in_child(nb, u)) by {
        reveal(probes);
        let cell = nb.size / 4;
        let nx = step_count(extent.0, cell as int);
        let ny = step_count(extent.1, cell as int);
        let nz = step_count(extent.2, cell as int);
        let x = start.0 + (t / (ny * nz)) * cell;
        let y = start.1 + ((t / nz) % ny) * cell;
        let z = start.2 + (t % nz) * cell;
        assert(s[t] == probe_update(nb, start, extent, x, y, z));
        if 0 <= x <= u32::MAX && 0 <= y <= u32::MAX && 0 <= z <= u32::MAX {
            let probe = V3c { x: x as u32, y: y as u32, z: z as u32 };
            if cube_contains(nb, probe) {
                lemma_sectant_of(nb, probe);
            }
        }
    }
    lemma_present_in_children(nb, s);
}

/// Cutting a prefix one element longer adds that element's update, if any
proof fn lemma_present_step(s: Seq<Option<SectantUpdate>>, t: int)
    requires
        0 <= t < s.len(),
    ensures
        present_updates(s.subrange(0, t + 1)) == (match s[t] {
            Some(u) => present_updates(s.subrange(0, t)).push(u),
            None => present_updates(s.subrange(0, t)),
        }),
{
    assert(s.subrange(0, t + 1).drop_last() =~= s.subrange(0, t));
}

/// The `k`-th step from the start stays within the extent exactly for the first `step_count` steps
proof fn lemma_step_count(e: int, cell: int, k: int)
    requires
        cell > 0,
        k >= 0,
    ensures
        step_count(e, cell) >= 0,
        (k * cell <= e) <==> k < step_count(e, cell),
{
    assert(k * cell >= 0) by (nonlinear_arith)
        requires k >= 0, cell > 0;
    if e >= 0 {
        let q = e / cell;
        assert(q * cell <= e < (q + 1) * cell) by (nonlinear_arith)
            requires cell > 0, q == e / cell, e >= 0;
        if k <= q {
            assert(k * cell <= q * cell) by (nonlinear_arith)
                requires k <= q, cell > 0;
        } else {
            assert(k * cell >= (q + 1) * cell) by (nonlinear_arith)
                requires k >= q + 1, cell > 0;
        }
    }
}

/// Bounds of the flat index of probe `(i, j, k)` among `nx * ny * nz` probes
proof fn lemma_flat_bounds(i: int, j: int, k: int, nx: int, ny: int, nz: int)
    requires
        0 <= i < nx,
        0 <= j < ny,
        0 <= k < nz,
    ensures
        0 <= i * (ny * nz) + j * nz + k < nx * ny * nz,
        i * (ny * nz) + j * nz + k + 1 == i * (ny * nz) + (j * nz + k + 1),
        i * (ny * nz) + j * nz + nz == i * (ny * nz) + (j + 1) * nz,
        i * (ny * nz) + ny * nz == (i + 1) * (ny * nz),
{
    assert(j * nz + k < ny * nz) by (nonlinear_arith)
        requires 0 <= j < ny, 0 <= k < nz;
    assert(0 <= j * nz + k) by (nonlinear_arith)
        requires 0 <= j, 0 <= k, nz > 0;
    assert(0 <= i * (ny * nz)) by (nonlinear_arith)
        requires 0 <= i, ny > 0, nz > 0;
    assert(i * (ny * nz) + ny * nz == (i + 1) * (ny * nz)) by (nonlinear_arith);
    assert((i + 1) * (ny * nz) <= nx * (ny * nz)) by (nonlinear_arith)
        requires i + 1 <= nx, ny > 0, nz > 0;
    assert(nx * (ny * nz) == nx * ny * nz) by (nonlinear_arith);
    assert(j * nz + nz == (j + 1) * nz) by (nonlinear_arith);
}

/// The part of the range `start` .. `start + extent` (per axis) inside the child of the node that
/// holds the probe position `(x, y, z)`, if the probe lies inside the node and the part is not empty
fn probe_at(
    nb: &Cube,
    px: i64,
    py: i64,
    pz: i64,
    ux: i64,
    uy: i64,
    uz: i64,
    x: i64,
    y: i64,
    z: i64,
) -> (r: Option<SectantUpdate>)
    requires
        cube_splittable(*nb),
        cube_fits(*nb),
        0 <= px <= u32::MAX,
        0 <= py <= u32::MAX,
        0 <= pz <= u32::MAX,
        -0x1_0000_0000 <= ux <= 0x2_0000_0000,
        -0x1_0000_0000 <= uy <= 0x2_0000_0000,
        -0x1_0000_0000 <= uz <= 0x2_0000_0000,
    ensures
        r == probe_update(
            *nb,
            (px as int, py as int, pz as int),
            (ux as int, uy as int, uz as int),
            x as int,
            y as int,
            z as int,
        ),
{
    let minx = nb.min_position.x as i64;
    let miny = nb.min_position.y as i64;
    let minz = nb.min_position.z as i64;
    let size = nb.size as i64;
    if !(minx <= x && x < minx + size && miny <= y && y < miny + size && minz <= z && z < minz
        + size) {
        return None;
    }
    let probe = V3c { x: x as u32, y: y as u32, z: z as u32 };
    let s = nb.sectant_for(&probe);
    let tb = nb.child_bounds_for(s);
    let tx = tb.min_position.x as i64;
    let ty = tb.min_position.y as i64;
    let tz = tb.min_position.z as i64;
    let ts = tb.size as i64;
    let qx: i64 = if px >= tx { px } else { tx };
    let qy: i64 = if py >= ty { py } else { ty };
    let qz: i64 = if pz >= tz { pz } else { tz };
    let rx: i64 = if tx + ts - qx <= px + ux - qx { tx + ts - qx } else { px + ux - qx };
    let ry: i64 = if ty + ts - qy <= py + uy - qy { ty + ts - qy } else { py + uy - qy };
    let rz: i64 = if tz + ts - qz <= pz + uz - qz { tz + ts - qz } else { pz + uz - qz };
    if 0 < rx && 0 < ry && 0 < rz {
        Some(
            SectantUpdate {
                position_in_target: V3c { x: qx as u32, y: qy as u32, z: qz as u32 },
                update_size_in_target: V3c { x: rx as u32, y: ry as u32, z: rz as u32 },
                target_child_sectant: s,
                target_bounds: tb,
            },
        )
    } else {
        None
    }
}

/// Splits the update range starting at `position_` with edge `update_size` over the children
/// of the node covering `node_bounds`: positions are probed stepping by the child size from the
/// start of the range; for every probe inside the node the part of the range inside the child
/// holding the probe is listed, when it is not empty.
/// Returns the listed parts, and the extent of the range from where it starts inside the node
/// (0 where it lies before the node).
pub fn execute_for_relevant_sectants(node_bounds: &Cube, position_: &V3c<u32>, update_size: u32) -> (r: (Vec<SectantUpdate>, V3c<u64>))
    requires
        cube_splittable(*node_bounds),
        cube_fits(*node_bounds),
    ensures
        update_beyond(*node_bounds, *position_) ==> r.0@.len() == 0 && r.1 == (V3c { x: 0u64, y: 0u64, z: 0u64 }),
        !update_beyond(*node_bounds, *position_) ==> ({
            let (start, extent) = clipped_update(*node_bounds, *position_, update_size);
            &&& r.0@ == present_updates(probes(*node_bounds, start, extent))
            &&& r.1.x == max_int(extent.0, 0)
            &&& r.1.y == max_int(extent.1, 0)
            &&& r.1.z == max_int(extent.2, 0)
        }),
{
    let mut result: Vec<SectantUpdate> = Vec::new();
    let minx = node_bounds.min_position.x as i64;
    let miny = node_bounds.min_position.y as i64;
    let minz = node_bounds.min_position.z as i64;
    let size = node_bounds.size as i64;
    if (position_.x as i64) > minx + size || (position_.y as i64) > miny + size || (position_.z as i64) > minz + size {
        return (result, V3c { x: 0, y: 0, z: 0 });
    }
    let px: i64 = if (position_.x as i64) >= minx { position_.x as i64 } else { minx };
    let py: i64 = if (position_.y as i64) >= miny { position_.y as i64 } else { miny };
    let pz: i64 = if (position_.z as i64) >= minz { position_.z as i64 } else { minz };
    let ux: i64 = position_.x as i64 + update_size as i64 - px;
    let uy: i64 = position_.y as i64 + update_size as i64 - py;
    let uz: i64 = position_.z as i64 + update_size as i64 - pz;
    let cell: i64 = size / 4;
    let ghost nb = *node_bounds;
    let ghost start = (px as int, py as int, pz as int);
    let ghost extent = (ux as int, uy as int, uz as int);
    let ghost all = probes(nb, start, extent);
    let ghost nx = step_count(ux as int, cell as int);
    let ghost ny = step_count(uy as int, cell as int);
    let ghost nz = step_count(uz as int, cell as int);
    proof {
        lemma_probes_len(nb, start, extent);
        assert(all.subrange(0, 0) =~= Seq::<Option<SectantUpdate>>::empty());
        lemma_step_count(ux as int, cell as int, 0);
        lemma_step_count(uy as int, cell as int, 0);
        lemma_step_count(uz as int, cell as int, 0);
    }
    let ghost mut t: int = 0;
    let ghost mut i: int = 0;
    let mut sx = px;
    while sx <= px + ux
        invariant
            cube_splittable(*node_bounds),
            cube_fits(*node_bounds),
            nb == *node_bounds,
            cell == nb.size / 4,
            cell > 0,
            0 <= px <= u32::MAX,
            0 <= py <= u32::MAX,
            0 <= pz <= u32::MAX,
            -0x1_0000_0000 <= ux <= 0x2_0000_0000,
            -0x1_0000_0000 <= uy <= 0x2_0000_0000,
            -0x1_0000_0000 <= uz <= 0x2_0000_0000,
            start == (px as int, py as int, pz as int),
            extent == (ux as int, uy as int, uz as int),
            nx == step_count(ux as int, cell as int),
            ny == step_count(uy as int, cell as int),
            nz == step_count(uz as int, cell as int),
            ny >= 0,
            nz >= 0,
            all == probes(nb, start, extent),
            sx == px + i * cell,
            0 <= i <= nx,
            (sx <= px + ux) <==> i < nx,
            t == i * (ny * nz),
            result@ == present_updates(all.subrange(0, t)),
        decreases nx - i,
    {
        let ghost mut j: int = 0;
        let mut sy = py;
        while sy <= py + uy
            invariant
                cube_splittable(*node_bounds),
                cube_fits(*node_bounds),
                nb == *node_bounds,
                cell == nb.size / 4,
                cell > 0,
                0 <= px <= u32::MAX,
                0 <= py <= u32::MAX,
                0 <= pz <= u32::MAX,
                -0x1_0000_0000 <= ux <= 0x2_0000_0000,
                -0x1_0000_0000 <= uy <= 0x2_0000_0000,
                -0x1_0000_0000 <= uz <= 0x2_0000_0000,
                start == (px as int, py as int, pz as int),
                extent == (ux as int, uy as int, uz as int),
                nx == step_count(ux as int, cell as int),
                ny == step_count(uy as int, cell as int),
                nz == step_count(uz as int, cell as int),
                ny >= 0,
                nz >= 0,
                all == probes(nb, start, extent),
                sx == px + i * cell,
                0 <= i < nx,
                sy == py + j * cell,
                0 <= j <= ny,
                (sy <= py + uy) <==> j < ny,
                t == i * (ny * nz) + j * nz,
                result@ == present_updates(all.subrange(0, t)),
            decreases ny - j,
        {
            let ghost mut k: int = 0;
            let mut sz = pz;
            while sz <= pz + uz
                invariant
                    cube_splittable(*node_bounds),
                    cube_fits(*node_bounds),
                    nb == *node_bounds,
                    cell == nb.size / 4,
                    cell > 0,
                    0 <= px <= u32::MAX,
                    0 <= py <= u32::MAX,
                    0 <= pz <= u32::MAX,
                    -0x1_0000_0000 <= ux <= 0x2_0000_0000,
                    -0x1_0000_0000 <= uy <= 0x2_0000_0000,
                    -0x1_0000_0000 <= uz <= 0x2_0000_0000,
                    start == (px as int, py as int, pz as int),
                    extent == (ux as int, uy as int, uz as int),
                    nx == step_count(ux as int, cell as int),
                    ny == step_count(uy as int, cell as int),
                    nz == step_count(uz as int, cell as int),
                    all == probes(nb, start, extent),
                    sx == px + i * cell,
                    0 <= i < nx,
                    sy == py + j * cell,
                    0 <= j < ny,
                    sz == pz + k * cell,
                    0 <= k <= nz,
                    (sz <= pz + uz) <==> k < nz,
                    t == i * (ny * nz) + j * nz + k,
                    result@ == present_updates(all.subrange(0, t)),
                decreases nz - k,
            {
                proof {
                    lemma_probe_at_index(nb, start, extent, i, j, k);
                    lemma_flat_bounds(i, j, k, nx, ny, nz);
                    lemma_present_step(all, t);
                }
                let p = probe_at(node_bounds, px, py, pz, ux, uy, uz, sx, sy, sz);
                if let Some(u) = p {
                    result.push(u);
                }
                sz = sz + cell;
                proof {
                    k = k + 1;
                    t = t + 1;
                    assert(sz == pz + k * cell) by (nonlinear_arith)
                        requires sz == pz + (k - 1) * cell + cell;
                    lemma_step_count(uz as int, cell as int, k);
                }
            }
            proof {
                assert(j * nz + nz == (j + 1) * nz) by (nonlinear_arith);
            }
            sy = sy + cell;
            proof {
                j = j + 1;
                assert(sy == py + j * cell) by (nonlinear_arith)
                    requires sy == py + (j - 1) * cell + cell;
                lemma_step_count(uy as int, cell as int, j);
            }
        }
        proof {
            assert(i * (ny * nz) + ny * nz == (i + 1) * (ny * nz)) by (nonlinear_arith);
        }
        sx = sx + cell;
        proof {
            i = i + 1;
            assert(sx == px + i * cell) by (nonlinear_arith)
                requires sx == px + (i - 1) * cell + cell;
            lemma_step_count(ux as int, cell as int, i);
        }
    }
    proof {
        assert(t == nx * ny * nz) by (nonlinear_arith)
            requires t == i * (ny * nz), i == nx;
        assert(all.subrange(0, t) =~= all);
    }
    (result, V3c { x: if ux > 0 { ux as u64 } else { 0 }, y: if uy > 0 { uy as u64 } else { 0 }, z: if uz > 0 { uz as u64 } else { 0 } })
}

} // verus!
