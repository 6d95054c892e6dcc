//! The dense occupancy grid built from an evaluated voxel set.

use vstd::prelude::*;
use vstd::seq_lib::*;
use crate::voxel::{Vec3i, GeometryObject, VoxelSet, COORD_LIMIT};

verus! {

/// Why a shape could not be turned into a mesh.
#[derive(Clone, Copy, PartialEq, Eq, Structural, Debug)]
pub enum MeshError {
    /// The shape evaluated to no voxels at all.
    NoVoxels,
}

/// A dense, read-only occupancy grid: cell `(x, y, z)` records whether the
/// world position `min + (x, y, z)` is occupied.
#[derive(Debug)]
pub struct Geometry {
    pub resolution: i32,
    pub min: Vec3i,
    pub size: Vec3i,
    pub voxels: Vec<Vec<Vec<bool>>>,
}

impl Geometry {
    /// Valid extents, a grid of exactly matching shape, and a positive
    /// resolution.
    pub open spec fn wf(self) -> bool {
        &&& 0 < self.size.x && 0 < self.size.y && 0 < self.size.z
        &&& -COORD_LIMIT <= self.min.x && self.min.x + self.size.x <= COORD_LIMIT
        &&& -COORD_LIMIT <= self.min.y && self.min.y + self.size.y <= COORD_LIMIT
        &&& -COORD_LIMIT <= self.min.z && self.min.z + self.size.z <= COORD_LIMIT
        &&& 0 < self.resolution
        &&& self.voxels@.len() == self.size.x
        &&& forall|i: int|
            0 <= i < self.size.x ==> (#[trigger] self.voxels@[i])@.len() == self.size.y
        &&& forall|i: int, j: int|
            0 <= i < self.size.x && 0 <= j < self.size.y ==> (#[trigger] self.voxels@[i]@[j])@.len()
                == self.size.z
    }

    /// Is the grid cell at local coordinates `(xi, yi, zi)` occupied?
    /// Out-of-grid coordinates count as unoccupied.
    pub open spec fn occupied_local(self, xi: int, yi: int, zi: int) -> bool {
        &&& 0 <= xi < self.size.x
        &&& 0 <= yi < self.size.y
        &&& 0 <= zi < self.size.z
        &&& self.voxels@[xi]@[yi]@[zi]
    }

    /// Is the world position `p` occupied?
    pub open spec fn occ_world(self, p: Vec3i) -> bool {
        self.occupied_local(p.x - self.min.x, p.y - self.min.y, p.z - self.min.z)
    }

    /// The set of occupied world positions.
    pub open spec fn occ_set(self) -> Set<Vec3i> {
        Set::new(|p: Vec3i| self.occ_world(p))
    }
}

/// `min` and `size` are the exact bounding box of the non-empty set `s`:
/// every position lies inside, and every face of the box is touched.
pub open spec fn tight_bounds(min: Vec3i, size: Vec3i, s: Set<Vec3i>) -> bool {
    &&& forall|p: Vec3i|
        s.contains(p) ==> min.x <= p.x < min.x + size.x && min.y <= p.y < min.y + size.y && min.z
            <= p.z < min.z + size.z
    &&& exists|p: Vec3i| s.contains(p) && p.x == min.x
    &&& exists|p: Vec3i| s.contains(p) && p.x == min.x + size.x - 1
    &&& exists|p: Vec3i| s.contains(p) && p.y == min.y
    &&& exists|p: Vec3i| s.contains(p) && p.y == min.y + size.y - 1
    &&& exists|p: Vec3i| s.contains(p) && p.z == min.z
    &&& exists|p: Vec3i| s.contains(p) && p.z == min.z + size.z - 1
}

/// Evaluates the shape and compacts the resulting voxel set into a dense
/// grid over its exact bounding box. Fails exactly when the shape denotes no
/// voxels.
#[verifier::rlimit(60)]
pub fn convert_to_geometry(obj: &GeometryObject, resolution: i32) -> (r: Result<
    Geometry,
    MeshError,
>)
    requires
        obj.wf(),
        0 < resolution,
    ensures
        r is Err <==> obj.voxels_spec().is_empty(),
        r matches Ok(g) ==> g.wf() && g.resolution == resolution && g.occ_set()
            == obj.voxels_spec() && tight_bounds(g.min, g.size, obj.voxels_spec()),
{
    let vs = obj.get_voxels();
    let n = vs.items.len();
    if n == 0 {
        proof {
            assert(vs.items@.to_set() =~= Set::<Vec3i>::empty());
            assert(obj.voxels_spec().is_empty());
        }
        return Err(MeshError::NoVoxels);
    }
    proof {
        assert(vs.items@.contains(vs.items@[0]));
        assert(vs@.contains(vs.items@[0]));
        assert(!obj.voxels_spec().is_empty());
    }

    // Componentwise minimum and maximum over all positions.
    let first = vs.items[0];
    let mut min = first;
    let mut max = first;
    let mut t: usize = 1;
    while t < n
        invariant
            vs.wf(),
            n == vs.items@.len(),
            1 <= t <= n,
            min.bounded(),
            max.bounded(),
            forall|k: int|
                0 <= k < t ==> min.x <= (#[trigger] vs.items@[k]).x <= max.x && min.y
                    <= vs.items@[k].y <= max.y && min.z <= vs.items@[k].z <= max.z,
            exists|k: int| 0 <= k < t && (#[trigger] vs.items@[k]).x == min.x,
            exists|k: int| 0 <= k < t && (#[trigger] vs.items@[k]).x == max.x,
            exists|k: int| 0 <= k < t && (#[trigger] vs.items@[k]).y == min.y,
            exists|k: int| 0 <= k < t && (#[trigger] vs.items@[k]).y == max.y,
            exists|k: int| 0 <= k < t && (#[trigger] vs.items@[k]).z == min.z,
            exists|k: int| 0 <= k < t && (#[trigger] vs.items@[k]).z == max.z,
        decreases n - t,
    {
        let p = vs.items[t];
        proof {
            assert(vs.items@[t as int].bounded());
        }
        if p.x < min.x {
            min.x = p.x;
        }
        if p.y < min.y {
            min.y = p.y;
        }
        if p.z < min.z {
            min.z = p.z;
        }
        if p.x > max.x {
            max.x = p.x;
        }
        if p.y > max.y {
            max.y = p.y;
        }
        if p.z > max.z {
            max.z = p.z;
        }
        t += 1;
    }
    proof {
        let kx = choose|k: int| 0 <= k < n && (#[trigger] vs.items@[k]).x == min.x;
        assert(min.x <= vs.items@[kx].x <= max.x);
        let ky = choose|k: int| 0 <= k < n && (#[trigger] vs.items@[k]).y == min.y;
        assert(min.y <= vs.items@[ky].y <= max.y);
        let kz = choose|k: int| 0 <= k < n && (#[trigger] vs.items@[k]).z == min.z;
        assert(min.z <= vs.items@[kz].z <= max.z);
    }
    let size = Vec3i { x: max.x - min.x + 1, y: max.y - min.y + 1, z: max.z - min.z + 1 };

    // A dense grid of that extent, initially all unoccupied.
    let sx = size.x as usize;
    let sy = size.y as usize;
    let sz = size.z as usize;
    let mut grid: Vec<Vec<Vec<bool>>> = Vec::new();
    while grid.len() < sx
        invariant
            grid@.len() <= sx,
            forall|i: int| 0 <= i < grid@.len() ==> (#[trigger] grid@[i])@.len() == sy,
            forall|i: int, j: int|
                0 <= i < grid@.len() && 0 <= j < sy ==> (#[trigger] grid@[i]@[j])@.len() == sz,
            forall|i: int, j: int, k: int|
                0 <= i < grid@.len() && 0 <= j < sy && 0 <= k < sz ==> !(
                #[trigger] grid@[i]@[j]@[k]),
        decreases sx - grid@.len(),
    {
        let mut plane: Vec<Vec<bool>> = Vec::new();
        while plane.len() < sy
            invariant
                plane@.len() <= sy,
                forall|j: int| 0 <= j < plane@.len() ==> (#[trigger] plane@[j])@.len() == sz,
                forall|j: int, k: int|
                    0 <= j < plane@.len() && 0 <= k < sz ==> !(#[trigger] plane@[j]@[k]),
            decreases sy - plane@.len(),
        {
            let mut row: Vec<bool> = Vec::new();
            while row.len() < sz
                invariant
                    row@.len() <= sz,
                    forall|k: int| 0 <= k < row@.len() ==> !(#[trigger] row@[k]),
                decreases sz - row@.len(),
            {
                row.push(false);
            }
            plane.push(row);
        }
        grid.push(plane);
    }

    // Mark every evaluated position.
    let mut t: usize = 0;
    while t < n
        invariant
            vs.wf(),
            n == vs.items@.len(),
            t <= n,
            min.bounded(),
            1 <= size.x <= 2 * COORD_LIMIT,
            1 <= size.y <= 2 * COORD_LIMIT,
            1 <= size.z <= 2 * COORD_LIMIT,
            sx == size.x && sy == size.y && sz == size.z,
            forall|k: int|
                0 <= k < n ==> min.x <= (#[trigger] vs.items@[k]).x < min.x + size.x && min.y
                    <= vs.items@[k].y < min.y + size.y && min.z <= vs.items@[k].z < min.z + size.z,
            grid@.len() == sx,
            forall|i: int| 0 <= i < sx ==> (#[trigger] grid@[i])@.len() == sy,
            forall|i: int, j: int|
                0 <= i < sx && 0 <= j < sy ==> (#[trigger] grid@[i]@[j])@.len() == sz,
            forall|i: int, j: int, k: int|
                0 <= i < sx && 0 <= j < sy && 0 <= k < sz ==> ((#[trigger] grid@[i]@[j]@[k])
                    <==> vs.items@.take(t as int).to_set().contains(
                    Vec3i { x: (min.x + i) as i32, y: (min.y + j) as i32, z: (min.z + k) as i32 },
                )),
        decreases n - t,
    {
        let p = vs.items[t];
        let qx = (p.x - min.x) as usize;
        let qy = (p.y - min.y) as usize;
        let qz = (p.z - min.z) as usize;
        grid[qx][qy][qz] = true;
        proof {
            assert(vs.items@.take(t + 1) =~= vs.items@.take(t as int) + seq![p]);
            Seq::lemma_to_set_insert_commutes(vs.items@.take(t as int), p);
        }
        t += 1;
    }
    proof {
        assert(vs.items@.take(n as int) =~= vs.items@);
    }

    let g = Geometry { resolution, min, size, voxels: grid };
    proof {
        assert forall|p: Vec3i| g.occ_set().contains(p) <==> obj.voxels_spec().contains(p) by {
            if obj.voxels_spec().contains(p) {
                assert(vs@.contains(p));
            }
        }
        assert(g.occ_set() =~= obj.voxels_spec());
        let kxl = choose|k: int| 0 <= k < n && (#[trigger] vs.items@[k]).x == min.x;
        assert(vs.items@.contains(vs.items@[kxl]));
        assert(obj.voxels_spec().contains(vs.items@[kxl]) && vs.items@[kxl].x == min.x);
        let kxh = choose|k: int| 0 <= k < n && (#[trigger] vs.items@[k]).x == max.x;
        assert(vs.items@.contains(vs.items@[kxh]));
        assert(obj.voxels_spec().contains(vs.items@[kxh]) && vs.items@[kxh].x == max.x);
        let kyl = choose|k: int| 0 <= k < n && (#[trigger] vs.items@[k]).y == min.y;
        assert(vs.items@.contains(vs.items@[kyl]));
        assert(obj.voxels_spec().contains(vs.items@[kyl]) && vs.items@[kyl].y == min.y);
        let kyh = choose|k: int| 0 <= k < n && (#[trigger] vs.items@[k]).y == max.y;
        assert(vs.items@.contains(vs.items@[kyh]));
        assert(obj.voxels_spec().contains(vs.items@[kyh]) && vs.items@[kyh].y == max.y);
        let kzl = choose|k: int| 0 <= k < n && (#[trigger] vs.items@[k]).z == min.z;
        assert(vs.items@.contains(vs.items@[kzl]));
        assert(obj.voxels_spec().contains(vs.items@[kzl]) && vs.items@[kzl].z == min.z);
        let kzh = choose|k: int| 0 <= k < n && (#[trigger] vs.items@[k]).z == max.z;
        assert(vs.items@.contains(vs.items@[kzh]));
        assert(obj.voxels_spec().contains(vs.items@[kzh]) && vs.items@[kzh].z == max.z);
        assert forall|p: Vec3i| obj.voxels_spec().contains(p) implies min.x <= p.x < min.x + size.x
            && min.y <= p.y < min.y + size.y && min.z <= p.z < min.z + size.z by {
            assert(vs.items@.contains(p));
            let k = choose|k: int| 0 <= k < n && vs.items@[k] == p;
            assert(vs.items@[k] == p);
        }
        assert(tight_bounds(min, size, obj.voxels_spec()));
    }
    Ok(g)
}

/// A signed unit axis vector.
pub open spec fn unit_vec(d: Vec3i) -> bool {
    (d.x * d.x + d.y * d.y + d.z * d.z == 1) && -1 <= d.x <= 1 && -1 <= d.y <= 1 && -1 <= d.z <= 1
}

/// Orthogonality of two direction vectors.
pub open spec fn orthogonal(a: Vec3i, b: Vec3i) -> bool {
    a.x * b.x + a.y * b.y + a.z * b.z == 0
}

/// The components of the cross product `a x b`.
pub open spec fn cross_x(a: Vec3i, b: Vec3i) -> int {
    a.y * b.z - a.z * b.y
}

pub open spec fn cross_y(a: Vec3i, b: Vec3i) -> int {
    a.z * b.x - a.x * b.z
}

pub open spec fn cross_z(a: Vec3i, b: Vec3i) -> int {
    a.x * b.y - a.y * b.x
}

/// The grid extent along the axis of the unit vector `d`.
pub open spec fn size_along(g: Geometry, d: Vec3i) -> int {
    if d.x != 0 {
        g.size.x as int
    } else if d.y != 0 {
        g.size.y as int
    } else {
        g.size.z as int
    }
}

/// Local grid coordinates of the slice cell at in-plane offsets `(i, j)`.
pub open spec fn cell_x(origin: Vec3i, d1: Vec3i, d2: Vec3i, i: int, j: int) -> int {
    origin.x + i * d1.x + j * d2.x
}

pub open spec fn cell_y(origin: Vec3i, d1: Vec3i, d2: Vec3i, i: int, j: int) -> int {
    origin.y + i * d1.y + j * d2.y
}

pub open spec fn cell_z(origin: Vec3i, d1: Vec3i, d2: Vec3i, i: int, j: int) -> int {
    origin.z + i * d1.z + j * d2.z
}

/// The visibility rule: the voxel at local `(x, y, z)` is occupied and its
/// neighbor one step along `n` is out of the grid or unoccupied.
pub open spec fn face_visible(g: Geometry, x: int, y: int, z: int, n: Vec3i) -> bool {
    g.occupied_local(x, y, z) && !g.occupied_local(x + n.x, y + n.y, z + n.z)
}

/// The vertex offset that places quads of a slice flush on the outward face:
/// one along the positive normal, and one along each in-plane direction that
/// runs negatively, so that vertices always bound their cells from above.
pub open spec fn proper_offset(n: Vec3i, d1: Vec3i, d2: Vec3i) -> Vec3i {
    Vec3i {
        x: if n.x == 1 || d1.x == -1 || d2.x == -1 {
            1
        } else {
            0
        },
        y: if n.y == 1 || d1.y == -1 || d2.y == -1 {
            1
        } else {
            0
        },
        z: if n.z == 1 || d1.z == -1 || d2.z == -1 {
            1
        } else {
            0
        },
    }
}

/// A valid slice parameterization: three pairwise orthogonal signed unit
/// axes whose cross product orients the face outward, the matching vertex
/// offset, and a slice origin from which every in-plane cell lies in the grid.
pub open spec fn slice_config(g: Geometry, origin: Vec3i, d1: Vec3i, d2: Vec3i, n: Vec3i, off: Vec3i) -> bool {
    &&& g.wf()
    &&& unit_vec(d1) && unit_vec(d2) && unit_vec(n)
    &&& orthogonal(d1, d2) && orthogonal(d1, n) && orthogonal(d2, n)
    &&& cross_x(d1, d2) == n.x && cross_y(d1, d2) == n.y && cross_z(d1, d2) == n.z
    &&& off == proper_offset(n, d1, d2)
    &&& -2 * COORD_LIMIT <= origin.x <= 2 * COORD_LIMIT
    &&& -2 * COORD_LIMIT <= origin.y <= 2 * COORD_LIMIT
    &&& -2 * COORD_LIMIT <= origin.z <= 2 * COORD_LIMIT
    &&& forall|i: int, j: int|
        0 <= i < size_along(g, d1) && 0 <= j < size_along(g, d2) ==> 0 <= #[trigger] cell_x(
            origin,
            d1,
            d2,
            i,
            j,
        ) < g.size.x && 0 <= cell_y(origin, d1, d2, i, j) < g.size.y && 0 <= cell_z(
            origin,
            d1,
            d2,
            i,
            j,
        ) < g.size.z
}

/// One rectangular face of the mesh: four vertices wound counter-clockwise
/// as seen from outside, the face normal, texture coordinates given as
/// fractions with a common denominator, and the integer texture footprint.
#[derive(Clone, Copy, Debug)]
pub struct Quad {
    pub vertices: [Vec3i; 4],
    pub normal: Vec3i,
    pub uvs: [(usize, usize); 4],
    pub uv_den: usize,
    pub tex_size: (usize, usize),
}

impl Quad {
    /// A fresh quad: unit-square texture coordinates and a unit normal taken
    /// from the cross product of the first three vertices, which must be
    /// axis-aligned.
    pub fn new(vertices: [Vec3i; 4], tex_size: (usize, usize)) -> (q: Quad)
        requires
            forall|k: int|
                0 <= k < 4 ==> -12 * COORD_LIMIT <= (#[trigger] vertices@[k]).x <= 12
                    * COORD_LIMIT && -12 * COORD_LIMIT <= vertices@[k].y <= 12 * COORD_LIMIT && -12
                    * COORD_LIMIT <= vertices@[k].z <= 12 * COORD_LIMIT,
        ensures
            q.vertices == vertices,
            q.tex_size == tex_size,
            q.uv_den == 1,
            q.uvs@ =~= seq![(0usize, 0usize), (0usize, 1usize), (1usize, 1usize), (1usize, 0usize)],
            ({
                let a = vertices@[1].spec_sub(vertices@[0]);
                let b = vertices@[2].spec_sub(vertices@[0]);
                q.normal.x == sign(cross_x(a, b)) && q.normal.y == sign(cross_y(a, b)) && q.normal.z
                    == sign(cross_z(a, b))
            }),
    {
        proof {
            assert(-12 * COORD_LIMIT <= vertices@[0].x <= 12 * COORD_LIMIT);
            assert(-12 * COORD_LIMIT <= vertices@[1].x <= 12 * COORD_LIMIT);
            assert(-12 * COORD_LIMIT <= vertices@[2].x <= 12 * COORD_LIMIT);
        }
        let a = vertices[1].sub(vertices[0]);
        let b = vertices[2].sub(vertices[0]);
        proof {
            assert forall|u: int, v: int|
                -24 * 1024 <= u <= 24 * 1024 && -24 * 1024 <= v <= 24 * 1024 implies -0x2400_0000
                <= #[trigger] (u * v) <= 0x2400_0000 by {
                assert(-0x2400_0000 <= u * v <= 0x2400_0000) by (nonlinear_arith)
                    requires
                        -24 * 1024 <= u <= 24 * 1024,
                        -24 * 1024 <= v <= 24 * 1024,
                ;
            }
        }
        let cx = a.y * b.z - a.z * b.y;
        let cy = a.z * b.x - a.x * b.z;
        let cz = a.x * b.y - a.y * b.x;
        let normal = Vec3i { x: sign_i32(cx), y: sign_i32(cy), z: sign_i32(cz) };
        Quad {
            vertices,
            normal,
            uvs: [(0, 0), (0, 1), (1, 1), (1, 0)],
            uv_den: 1,
            tex_size,
        }
    }
}

/// The sign of an integer: -1, 0 or 1.
pub open spec fn sign(v: int) -> int {
    if v > 0 {
        1
    } else if v < 0 {
        -1
    } else {
        0
    }
}

fn sign_i32(v: i32) -> (r: i32)
    ensures
        r == sign(v as int),
{
    if v > 0 {
        1
    } else if v < 0 {
        -1
    } else {
        0
    }
}

/// Reads the occupancy of a local grid cell, treating out-of-grid
/// coordinates as unoccupied.
fn occupied_at(g: &Geometry, x: i32, y: i32, z: i32) -> (r: bool)
    requires
        g.wf(),
    ensures
        r == g.occupied_local(x as int, y as int, z as int),
{
    if x < 0 || y < 0 || z < 0 || x >= g.size.x || y >= g.size.y || z >= g.size.z {
        false
    } else {
        g.voxels[x as usize][y as usize][z as usize]
    }
}

/// The product of a small non-negative index with a component in `{-1, 0, 1}`.
fn mul_unit(i: i32, c: i32) -> (r: i32)
    requires
        0 <= i <= 4 * COORD_LIMIT,
        -1 <= c <= 1,
    ensures
        r == i * c,
        -i <= r <= i,
{
    proof {
        assert(-i <= i * c <= i) by (nonlinear_arith)
            requires
                0 <= i <= 4 * COORD_LIMIT,
                -1 <= c <= 1,
        ;
    }
    i * c
}

/// The grid extent along the axis of the unit vector `d`.
fn extent_along(g: &Geometry, d: Vec3i) -> (r: i32)
    requires
        g.wf(),
        unit_vec(d),
    ensures
        r == size_along(*g, d),
        0 < r <= 2 * COORD_LIMIT,
{
    proof {
        assert(d.x != 0 ==> d.y == 0 && d.z == 0 && (d.x == 1 || d.x == -1)) by (nonlinear_arith)
            requires
                unit_vec(d),
        ;
        assert(d.x == 0 && d.y != 0 ==> d.z == 0 && (d.y == 1 || d.y == -1)) by (nonlinear_arith)
            requires
                unit_vec(d),
        ;
        assert(d.x == 0 && d.y == 0 ==> (d.z == 1 || d.z == -1)) by (nonlinear_arith)
            requires
                unit_vec(d),
        ;
    }
    if d.x != 0 {
        g.size.x
    } else if d.y != 0 {
        g.size.y
    } else {
        g.size.z
    }
}

/// Builds the visibility mask of one slice: cell `(i, j)` is set exactly
/// when the voxel there has a visible face along `normal`.
pub fn get_slice_mask(
    geometry: &Geometry,
    origin: Vec3i,
    dir1: Vec3i,
    dir2: Vec3i,
    normal: Vec3i,
) -> (mask: Vec<Vec<bool>>)
    requires
        slice_config(
            *geometry,
            origin,
            dir1,
            dir2,
            normal,
            proper_offset(normal, dir1, dir2),
        ),
    ensures
        mask@.len() == size_along(*geometry, dir1),
        forall|i: int|
            0 <= i < mask@.len() ==> (#[trigger] mask@[i])@.len() == size_along(*geometry, dir2),
        forall|i: int, j: int|
            0 <= i < mask@.len() && 0 <= j < mask@[i]@.len() ==> ((#[trigger] mask@[i]@[j])
                <==> face_visible(
                *geometry,
                cell_x(origin, dir1, dir2, i, j),
                cell_y(origin, dir1, dir2, i, j),
                cell_z(origin, dir1, dir2, i, j),
                normal,
            )),
{
    let size1 = extent_along(geometry, dir1);
    let size2 = extent_along(geometry, dir2);
    let mut mask: Vec<Vec<bool>> = Vec::new();
    let mut i: i32 = 0;
    while i < size1
        invariant
            slice_config(
                *geometry,
                origin,
                dir1,
                dir2,
                normal,
                proper_offset(normal, dir1, dir2),
            ),
            size1 == size_along(*geometry, dir1),
            size2 == size_along(*geometry, dir2),
            0 < size1 <= 3 * COORD_LIMIT,
            0 < size2 <= 3 * COORD_LIMIT,
            0 <= i <= size1,
            mask@.len() == i,
            forall|a: int| 0 <= a < i ==> (#[trigger] mask@[a])@.len() == size2,
            forall|a: int, b: int|
                0 <= a < i && 0 <= b < size2 ==> ((#[trigger] mask@[a]@[b]) <==> face_visible(
                    *geometry,
                    cell_x(origin, dir1, dir2, a, b),
                    cell_y(origin, dir1, dir2, a, b),
                    cell_z(origin, dir1, dir2, a, b),
                    normal,
                )),
        decreases size1 - i,
    {
        let mut row: Vec<bool> = Vec::new();
        let mut j: i32 = 0;
        while j < size2
            invariant
                slice_config(
                    *geometry,
                    origin,
                    dir1,
                    dir2,
                    normal,
                    proper_offset(normal, dir1, dir2),
                ),
                size1 == size_along(*geometry, dir1),
                size2 == size_along(*geometry, dir2),
                0 < size1 <= 3 * COORD_LIMIT,
                0 < size2 <= 3 * COORD_LIMIT,
                0 <= i < size1,
                0 <= j <= size2,
                row@.len() == j,
                forall|b: int|
                    0 <= b < j ==> ((#[trigger] row@[b]) <==> face_visible(
                        *geometry,
                        cell_x(origin, dir1, dir2, i as int, b),
                        cell_y(origin, dir1, dir2, i as int, b),
                        cell_z(origin, dir1, dir2, i as int, b),
                        normal,
                    )),
            decreases size2 - j,
        {
            let px = origin.x + mul_unit(i, dir1.x) + mul_unit(j, dir2.x);
            let py = origin.y + mul_unit(i, dir1.y) + mul_unit(j, dir2.y);
            let pz = origin.z + mul_unit(i, dir1.z) + mul_unit(j, dir2.z);
            let has_block = occupied_at(geometry, px, py, pz);
            let other_empty = !occupied_at(geometry, px + normal.x, py + normal.y, pz + normal.z);
            row.push(has_block && other_empty);
            j += 1;
        }
        mask.push(row);
        i += 1;
    }
    mask
}

/// Does the slice cell `(a, b)` carry a visible face along `n`?
pub open spec fn vis_at(
    g: Geometry,
    origin: Vec3i,
    d1: Vec3i,
    d2: Vec3i,
    n: Vec3i,
    a: int,
    b: int,
) -> bool {
    face_visible(
        g,
        cell_x(origin, d1, d2, a, b),
        cell_y(origin, d1, d2, a, b),
        cell_z(origin, d1, d2, a, b),
        n,
    )
}

/// The quad `q` is exactly the face rectangle of the slice spanning rows
/// `i .. i + s1` and columns `j .. j + s2`: its vertices wind around the
/// outward face, its footprint is `(s2, s1)`, and every covered cell is a
/// visible face.
pub open spec fn quad_at(
    g: Geometry,
    origin: Vec3i,
    d1: Vec3i,
    d2: Vec3i,
    n: Vec3i,
    off: Vec3i,
    q: Quad,
    i: int,
    j: int,
    s1: int,
    s2: int,
) -> bool {
    &&& 0 <= i && 0 <= j && 1 <= s1 && 1 <= s2
    &&& i + s1 <= size_along(g, d1)
    &&& j + s2 <= size_along(g, d2)
    &&& q.normal == n
    &&& q.tex_size.0 == s2 && q.tex_size.1 == s1
    &&& q.uv_den == 1
    &&& q.uvs@ =~= seq![(0usize, 0usize), (0usize, 1usize), (1usize, 1usize), (1usize, 0usize)]
    &&& q.vertices@[0].x == cell_x(origin, d1, d2, i, j) + g.min.x + off.x
    &&& q.vertices@[0].y == cell_y(origin, d1, d2, i, j) + g.min.y + off.y
    &&& q.vertices@[0].z == cell_z(origin, d1, d2, i, j) + g.min.z + off.z
    &&& q.vertices@[1].x == q.vertices@[0].x + s1 * d1.x
    &&& q.vertices@[1].y == q.vertices@[0].y + s1 * d1.y
    &&& q.vertices@[1].z == q.vertices@[0].z + s1 * d1.z
    &&& q.vertices@[2].x == q.vertices@[0].x + s1 * d1.x + s2 * d2.x
    &&& q.vertices@[2].y == q.vertices@[0].y + s1 * d1.y + s2 * d2.y
    &&& q.vertices@[2].z == q.vertices@[0].z + s1 * d1.z + s2 * d2.z
    &&& q.vertices@[3].x == q.vertices@[0].x + s2 * d2.x
    &&& q.vertices@[3].y == q.vertices@[0].y + s2 * d2.y
    &&& q.vertices@[3].z == q.vertices@[0].z + s2 * d2.z
    &&& forall|a: int, b: int|
        i <= a < i + s1 && j <= b < j + s2 ==> vis_at(g, origin, d1, d2, n, a, b)
}

/// The quad is the face rectangle of some `(i, j, s1, s2)` of the slice.
pub open spec fn quad_somewhere(
    g: Geometry,
    origin: Vec3i,
    d1: Vec3i,
    d2: Vec3i,
    n: Vec3i,
    off: Vec3i,
    q: Quad,
) -> bool {
    exists|i: int, j: int, s1: int, s2: int| quad_at(g, origin, d1, d2, n, off, q, i, j, s1, s2)
}

/// The quad covers the slice cell `(a, b)` as part of its face rectangle.
pub open spec fn covers(
    g: Geometry,
    origin: Vec3i,
    d1: Vec3i,
    d2: Vec3i,
    n: Vec3i,
    off: Vec3i,
    q: Quad,
    a: int,
    b: int,
) -> bool {
    exists|i: int, j: int, s1: int, s2: int|
        quad_at(g, origin, d1, d2, n, off, q, i, j, s1, s2) && i <= a < i + s1 && j <= b < j + s2
}

/// Some quad of the list covers the slice cell `(a, b)`.
pub open spec fn cov_at(
    g: Geometry,
    origin: Vec3i,
    d1: Vec3i,
    d2: Vec3i,
    n: Vec3i,
    off: Vec3i,
    qs: Seq<Quad>,
    a: int,
    b: int,
) -> bool {
    exists|k: int| 0 <= k < qs.len() && covers(g, origin, d1, d2, n, off, qs[k], a, b)
}

/// The full contract of meshing one slice: every quad is a face rectangle of
/// visible cells, every visible cell is covered by some quad, and no cell is
/// covered by two quads — the footprints partition the visible faces.
pub open spec fn slice_quads_ok(
    g: Geometry,
    origin: Vec3i,
    d1: Vec3i,
    d2: Vec3i,
    n: Vec3i,
    off: Vec3i,
    qs: Seq<Quad>,
) -> bool {
    &&& forall|k: int|
        0 <= k < qs.len() ==> quad_somewhere(g, origin, d1, d2, n, off, #[trigger] qs[k])
    &&& forall|a: int, b: int|
        0 <= a < size_along(g, d1) && 0 <= b < size_along(g, d2) && #[trigger] vis_at(
            g,
            origin,
            d1,
            d2,
            n,
            a,
            b,
        ) ==> cov_at(g, origin, d1, d2, n, off, qs, a, b)
    &&& forall|a: int, b: int, k1: int, k2: int|
        0 <= k1 < qs.len() && 0 <= k2 < qs.len() && #[trigger] covers(
            g,
            origin,
            d1,
            d2,
            n,
            off,
            qs[k1],
            a,
            b,
        ) && #[trigger] covers(g, origin, d1, d2, n, off, qs[k2], a, b) ==> k1 == k2
}

/// Two distinct in-plane offsets always name two distinct cells.
pub proof fn lemma_cell_injective(
    origin: Vec3i,
    d1: Vec3i,
    d2: Vec3i,
    i: int,
    j: int,
    i2: int,
    j2: int,
)
    requires
        unit_vec(d1),
        unit_vec(d2),
        orthogonal(d1, d2),
        cell_x(origin, d1, d2, i, j) == cell_x(origin, d1, d2, i2, j2),
        cell_y(origin, d1, d2, i, j) == cell_y(origin, d1, d2, i2, j2),
        cell_z(origin, d1, d2, i, j) == cell_z(origin, d1, d2, i2, j2),
    ensures
        i == i2,
        j == j2,
{
    assert(i == i2 && j == j2) by (nonlinear_arith)
        requires
            d1.x * d1.x + d1.y * d1.y + d1.z * d1.z == 1,
            d2.x * d2.x + d2.y * d2.y + d2.z * d2.z == 1,
            d1.x * d2.x + d1.y * d2.y + d1.z * d2.z == 0,
            i * d1.x + j * d2.x == i2 * d1.x + j2 * d2.x,
            i * d1.y + j * d2.y == i2 * d1.y + j2 * d2.y,
            i * d1.z + j * d2.z == i2 * d1.z + j2 * d2.z,
    ;
}

/// A quad is the face rectangle of at most one `(i, j, s1, s2)` of a slice.
pub proof fn lemma_quad_at_unique(
    g: Geometry,
    origin: Vec3i,
    d1: Vec3i,
    d2: Vec3i,
    n: Vec3i,
    off: Vec3i,
    q: Quad,
    i: int,
    j: int,
    s1: int,
    s2: int,
    i2: int,
    j2: int,
    s12: int,
    s22: int,
)
    requires
        unit_vec(d1),
        unit_vec(d2),
        orthogonal(d1, d2),
        quad_at(g, origin, d1, d2, n, off, q, i, j, s1, s2),
        quad_at(g, origin, d1, d2, n, off, q, i2, j2, s12, s22),
    ensures
        i == i2,
        j == j2,
        s1 == s12,
        s2 == s22,
{
    lemma_cell_injective(origin, d1, d2, i, j, i2, j2);
}

/// A quad placed at `(i, j, s1, s2)` covers exactly that rectangle of cells.
pub proof fn lemma_covers_exact(
    g: Geometry,
    origin: Vec3i,
    d1: Vec3i,
    d2: Vec3i,
    n: Vec3i,
    off: Vec3i,
    q: Quad,
    i: int,
    j: int,
    s1: int,
    s2: int,
    a: int,
    b: int,
)
    requires
        unit_vec(d1),
        unit_vec(d2),
        orthogonal(d1, d2),
        quad_at(g, origin, d1, d2, n, off, q, i, j, s1, s2),
    ensures
        covers(g, origin, d1, d2, n, off, q, a, b) <==> (i <= a < i + s1 && j <= b < j + s2),
{
    if covers(g, origin, d1, d2, n, off, q, a, b) {
        let (i2, j2, s12, s22) = choose|i2: int, j2: int, s12: int, s22: int|
            quad_at(g, origin, d1, d2, n, off, q, i2, j2, s12, s22) && i2 <= a < i2 + s12 && j2
                <= b < j2 + s22;
        lemma_quad_at_unique(g, origin, d1, d2, n, off, q, i, j, s1, s2, i2, j2, s12, s22);
    }
    if i <= a < i + s1 && j <= b < j + s2 {
        assert(quad_at(g, origin, d1, d2, n, off, q, i, j, s1, s2) && i <= a < i + s1 && j <= b < j
            + s2);
        assert(covers(g, origin, d1, d2, n, off, q, a, b));
    }
}

/// Appending a quad covers a cell exactly when the list already did or the
/// new quad does.
pub proof fn lemma_cov_push(
    g: Geometry,
    origin: Vec3i,
    d1: Vec3i,
    d2: Vec3i,
    n: Vec3i,
    off: Vec3i,
    qs: Seq<Quad>,
    q: Quad,
    a: int,
    b: int,
)
    ensures
        cov_at(g, origin, d1, d2, n, off, qs.push(q), a, b) <==> (cov_at(
            g,
            origin,
            d1,
            d2,
            n,
            off,
            qs,
            a,
            b,
        ) || covers(g, origin, d1, d2, n, off, q, a, b)),
{
    let qs2 = qs.push(q);
    if cov_at(g, origin, d1, d2, n, off, qs2, a, b) {
        let k = choose|k: int|
            0 <= k < qs2.len() && covers(g, origin, d1, d2, n, off, qs2[k], a, b);
        if k < qs.len() {
            assert(qs2[k] == qs[k]);
            assert(covers(g, origin, d1, d2, n, off, qs[k], a, b));
        } else {
            assert(qs2[k] == q);
        }
    }
    if cov_at(g, origin, d1, d2, n, off, qs, a, b) {
        let k = choose|k: int| 0 <= k < qs.len() && covers(g, origin, d1, d2, n, off, qs[k], a, b);
        assert(qs2[k] == qs[k]);
        assert(covers(g, origin, d1, d2, n, off, qs2[k], a, b));
    }
    if covers(g, origin, d1, d2, n, off, q, a, b) {
        assert(qs2[qs.len() as int] == q);
        assert(covers(g, origin, d1, d2, n, off, qs2[qs.len() as int], a, b));
    }
}

/// Builds the quad for one merged rectangle of visible faces.
#[verifier::rlimit(60)]
fn emit_quad(
    geometry: &Geometry,
    origin: Vec3i,
    dir1: Vec3i,
    dir2: Vec3i,
    normal: Vec3i,
    offset: Vec3i,
    i: usize,
    j: usize,
    s1: usize,
    s2: usize,
) -> (q: Quad)
    requires
        slice_config(*geometry, origin, dir1, dir2, normal, offset),
        i < size_along(*geometry, dir1),
        j < size_along(*geometry, dir2),
        1 <= s1,
        i + s1 <= size_along(*geometry, dir1),
        1 <= s2,
        j + s2 <= size_along(*geometry, dir2),
        forall|a: int, b: int|
            i <= a < i + s1 && j <= b < j + s2 ==> vis_at(
                *geometry,
                origin,
                dir1,
                dir2,
                normal,
                a,
                b,
            ),
    ensures
        quad_at(
            *geometry,
            origin,
            dir1,
            dir2,
            normal,
            offset,
            q,
            i as int,
            j as int,
            s1 as int,
            s2 as int,
        ),
{
    let g = geometry;
    let ghost go = *geometry;
    let ii = i as i32;
    let jj = j as i32;
    let t1 = s1 as i32;
    let t2 = s2 as i32;
    let p1 = Vec3i {
        x: origin.x + mul_unit(ii, dir1.x) + mul_unit(jj, dir2.x) + g.min.x + offset.x,
        y: origin.y + mul_unit(ii, dir1.y) + mul_unit(jj, dir2.y) + g.min.y + offset.y,
        z: origin.z + mul_unit(ii, dir1.z) + mul_unit(jj, dir2.z) + g.min.z + offset.z,
    };
    let p2 = Vec3i {
        x: p1.x + mul_unit(t1, dir1.x),
        y: p1.y + mul_unit(t1, dir1.y),
        z: p1.z + mul_unit(t1, dir1.z),
    };
    let p3 = Vec3i {
        x: p2.x + mul_unit(t2, dir2.x),
        y: p2.y + mul_unit(t2, dir2.y),
        z: p2.z + mul_unit(t2, dir2.z),
    };
    let p4 = Vec3i {
        x: p1.x + mul_unit(t2, dir2.x),
        y: p1.y + mul_unit(t2, dir2.y),
        z: p1.z + mul_unit(t2, dir2.z),
    };
    let q = Quad {
        vertices: [p1, p2, p3, p4],
        normal,
        uvs: [(0, 0), (0, 1), (1, 1), (1, 0)],
        uv_den: 1,
        tex_size: (s2, s1),
    };
    proof {
        assert(q.uvs@ =~= seq![(0usize, 0usize), (0usize, 1usize), (1usize, 1usize), (1usize, 0usize)]);
        assert(quad_at(go, origin, dir1, dir2, normal, offset, q, i as int, j as int, s1 as int, s2 as int));
    }
    q
}

/// A slice cell that carries a visible face not yet consumed by any quad of
/// the list.
pub open spec fn free_at(
    g: Geometry,
    origin: Vec3i,
    d1: Vec3i,
    d2: Vec3i,
    n: Vec3i,
    off: Vec3i,
    qs: Seq<Quad>,
    a: int,
    b: int,
) -> bool {
    vis_at(g, origin, d1, d2, n, a, b) && !cov_at(g, origin, d1, d2, n, off, qs, a, b)
}

/// Extends the face found at `(i, j)` maximally along the second then the
/// first in-plane axis, clearing the consumed mask cells, and returns the
/// extents `(s1, s2)` of the merged rectangle. Every cell of the rectangle
/// was a free visible face; afterwards the mask is false on the rectangle
/// (except the anchor itself, which the scan has already passed) and
/// unchanged elsewhere.
#[verifier::rlimit(100)]
fn merge_rect(
    geometry: &Geometry,
    origin: Vec3i,
    dir1: Vec3i,
    dir2: Vec3i,
    normal: Vec3i,
    offset: Vec3i,
    mask: &mut Vec<Vec<bool>>,
    qs: Ghost<Seq<Quad>>,
    i: usize,
    j: usize,
) -> (r: (usize, usize))
    requires
        slice_config(*geometry, origin, dir1, dir2, normal, offset),
        old(mask)@.len() == size_along(*geometry, dir1),
        forall|a: int|
            0 <= a < old(mask)@.len() ==> (#[trigger] old(mask)@[a])@.len() == size_along(
                *geometry,
                dir2,
            ),
        (i as int) < size_along(*geometry, dir1),
        (j as int) < size_along(*geometry, dir2),
        old(mask)@[i as int]@[j as int],
        forall|a: int, b: int|
            0 <= a < size_along(*geometry, dir1) && 0 <= b < size_along(*geometry, dir2) && (a > i
                || (a == i && j <= b)) ==> ((#[trigger] old(mask)@[a]@[b]) <==> free_at(
                *geometry,
                origin,
                dir1,
                dir2,
                normal,
                offset,
                qs@,
                a,
                b,
            )),
    ensures
        1 <= r.0 && i + r.0 <= size_along(*geometry, dir1),
        1 <= r.1 && j + r.1 <= size_along(*geometry, dir2),
        final(mask)@.len() == size_along(*geometry, dir1),
        forall|a: int|
            0 <= a < final(mask)@.len() ==> (#[trigger] final(mask)@[a])@.len()
                == size_along(*geometry, dir2),
        forall|a: int, b: int|
            i <= a < i + r.0 && j <= b < j + r.1 ==> #[trigger] free_at(
                *geometry,
                origin,
                dir1,
                dir2,
                normal,
                offset,
                qs@,
                a,
                b,
            ),
        forall|a: int, b: int|
            0 <= a < size_along(*geometry, dir1) && 0 <= b < size_along(*geometry, dir2) && (a > i
                || (a == i && j <= b)) && !(a == i && b == j)
                ==> ((#[trigger] final(mask)@[a]@[b]) <==> (free_at(
                *geometry,
                origin,
                dir1,
                dir2,
                normal,
                offset,
                qs@,
                a,
                b,
            ) && !(i <= a < i + r.0 && j <= b < j + r.1))),
{
    let ghost go = *geometry;
    let rows = mask.len();
    let cols = extent_along(geometry, dir2);
    let cols = cols as usize;
    let mut s2: usize = 1;
    while j + s2 < cols && mask[i][j + s2]
        invariant
            go == *geometry,
            mask@.len() == size_along(go, dir1),
            forall|a: int|
                0 <= a < mask@.len() ==> (#[trigger] mask@[a])@.len() == size_along(go, dir2),
            cols == size_along(go, dir2),
            (i as int) < size_along(go, dir1),
            0 <= j < cols,
            1 <= s2,
            j + s2 <= cols,
            forall|b: int|
                j <= b < j + s2 ==> #[trigger] free_at(go, origin, dir1, dir2, normal, offset, qs@, i as int, b),
            forall|b: int| j < b < j + s2 ==> !(#[trigger] mask@[i as int]@[b]),
            forall|a: int, b: int|
                0 <= a < size_along(go, dir1) && 0 <= b < size_along(go, dir2) && (a > i || (a == i
                    && j <= b)) && !(a == i && j < b < j + s2) ==> ((#[trigger] mask@[a]@[b])
                    <==> free_at(go, origin, dir1, dir2, normal, offset, qs@, a, b)),
        decreases cols - j - s2,
    {
        proof {
            assert(mask@[i as int]@[(j + s2) as int]);
            assert(free_at(go, origin, dir1, dir2, normal, offset, qs@, i as int, (j + s2) as int));
        }
        mask[i][j + s2] = false;
        s2 += 1;
    }
    let mut s1: usize = 1;
    let mut done = false;
    while !done
        invariant
            go == *geometry,
            mask@.len() == size_along(go, dir1),
            forall|a: int|
                0 <= a < mask@.len() ==> (#[trigger] mask@[a])@.len() == size_along(go, dir2),
            cols == size_along(go, dir2),
            (i as int) < size_along(go, dir1),
            0 <= j < cols,
            1 <= s2,
            j + s2 <= cols,
            1 <= s1,
            i + s1 <= size_along(go, dir1),
            forall|a: int, b: int|
                i <= a < i + s1 && j <= b < j + s2 ==> #[trigger] free_at(
                    go,
                    origin,
                    dir1,
                    dir2,
                    normal,
                    offset,
                    qs@,
                    a,
                    b,
                ),
            forall|b: int| j < b < j + s2 ==> !(#[trigger] mask@[i as int]@[b]),
            forall|a: int, b: int|
                i < a < i + s1 && j <= b < j + s2 ==> !(#[trigger] mask@[a]@[b]),
            forall|a: int, b: int|
                0 <= a < size_along(go, dir1) && 0 <= b < size_along(go, dir2) && (a > i || (a == i
                    && j <= b)) && !(a == i && j < b < j + s2) && !(i < a < i + s1 && j <= b < j
                    + s2) ==> ((#[trigger] mask@[a]@[b]) <==> free_at(
                    go,
                    origin,
                    dir1,
                    dir2,
                    normal,
                    offset,
                    qs@,
                    a,
                    b,
                )),
        decreases size_along(go, dir1) - i - s1 + (if done {
            0int
        } else {
            1int
        }),
    {
        if i + s1 >= mask.len() {
            done = true;
        } else {
            let mut ok = true;
            let mut k: usize = 0;
            while ok && k < s2
                invariant
                    go == *geometry,
                    mask@.len() == size_along(go, dir1),
                    forall|a: int|
                        0 <= a < mask@.len() ==> (#[trigger] mask@[a])@.len() == size_along(
                            go,
                            dir2,
                        ),
                    cols == size_along(go, dir2),
                    i + s1 < mask@.len(),
                    0 <= j < cols,
                    j + s2 <= cols,
                    k <= s2,
                    ok ==> forall|b: int| j <= b < j + k ==> #[trigger] mask@[(i + s1) as int]@[b],
                decreases s2 - k + (if ok {
                    1int
                } else {
                    0int
                }),
            {
                if !mask[i + s1][j + k] {
                    ok = false;
                } else {
                    k += 1;
                }
            }
            if ok {
                let mut k2: usize = 0;
                while k2 < s2
                    invariant
                        go == *geometry,
                        mask@.len() == size_along(go, dir1),
                        forall|a: int|
                            0 <= a < mask@.len() ==> (#[trigger] mask@[a])@.len() == size_along(
                                go,
                                dir2,
                            ),
                        cols == size_along(go, dir2),
                        (i as int) < size_along(go, dir1),
                        i + s1 < mask@.len(),
                        0 <= j < cols,
                        j + s2 <= cols,
                        1 <= s1,
                        1 <= s2,
                        k2 <= s2,
                        forall|a: int, b: int|
                            i <= a < i + s1 && j <= b < j + s2 ==> #[trigger] free_at(
                                go,
                                origin,
                                dir1,
                                dir2,
                                normal,
                                offset,
                                qs@,
                                a,
                                b,
                            ),
                        forall|b: int|
                            j <= b < j + k2 ==> #[trigger] free_at(
                                go,
                                origin,
                                dir1,
                                dir2,
                                normal,
                                offset,
                                qs@,
                                (i + s1) as int,
                                b,
                            ),
                        forall|b: int| j < b < j + s2 ==> !(#[trigger] mask@[i as int]@[b]),
                        forall|a: int, b: int|
                            i < a < i + s1 && j <= b < j + s2 ==> !(#[trigger] mask@[a]@[b]),
                        forall|b: int|
                            j <= b < j + k2 ==> !(#[trigger] mask@[(i + s1) as int]@[b]),
                        forall|b: int|
                            j + k2 <= b < j + s2 ==> #[trigger] mask@[(i + s1) as int]@[b],
                        forall|a: int, b: int|
                            0 <= a < size_along(go, dir1) && 0 <= b < size_along(go, dir2) && (a > i
                                || (a == i && j <= b)) && !(a == i && j < b < j + s2) && !(i < a < i
                                + s1 && j <= b < j + s2) && !(a == i + s1 && j <= b < j + k2) ==> ((
                            #[trigger] mask@[a]@[b]) <==> free_at(
                                go,
                                origin,
                                dir1,
                                dir2,
                                normal,
                                offset,
                                qs@,
                                a,
                                b,
                            )),
                    decreases s2 - k2,
                {
                    proof {
                        assert(mask@[(i + s1) as int]@[(j + k2) as int]);
                        assert(free_at(go, origin, dir1, dir2, normal, offset, qs@, (i + s1) as int, (j + k2) as int));
                    }
                    mask[i + s1][j + k2] = false;
                    k2 += 1;
                }
                proof {
                    assert forall|a: int, b: int|
                        i <= a < i + s1 + 1 && j <= b < j + s2 implies #[trigger] free_at(
                        go,
                        origin,
                        dir1,
                        dir2,
                        normal,
                        offset,
                        qs@,
                        a,
                        b,
                    ) by {
                        if a == i + s1 {
                            assert(free_at(go, origin, dir1, dir2, normal, offset, qs@, (i + s1) as int, b));
                        }
                    }
                    assert forall|a: int, b: int|
                        i < a < i + s1 + 1 && j <= b < j + s2 implies !(#[trigger] mask@[a]@[b]) by {
                        if a == i + s1 {
                            assert(mask@[a]@[b] == mask@[(i + s1) as int]@[b]);
                            assert(!mask@[(i + s1) as int]@[b]);
                        }
                    }
                }
                s1 += 1;
            } else {
                done = true;
            }
        }
    }
    (s1, s2)
}

/// Greedily merges the visible faces of one slice into rectangles: scan in
/// row-major order, extend each found face along the second then the first
/// in-plane axis, clear the consumed cells, and emit one quad per rectangle.
/// The emitted footprints partition the slice's visible faces.
#[verifier::rlimit(100)]
pub fn generate_quads_slice(
    geometry: &Geometry,
    origin: Vec3i,
    dir1: Vec3i,
    dir2: Vec3i,
    normal: Vec3i,
    offset: Vec3i,
) -> (quads: Vec<Quad>)
    requires
        slice_config(*geometry, origin, dir1, dir2, normal, offset),
    ensures
        slice_quads_ok(*geometry, origin, dir1, dir2, normal, offset, quads@),
{
    let ghost go = *geometry;
    let mut mask = get_slice_mask(geometry, origin, dir1, dir2, normal);
    let mut quads: Vec<Quad> = Vec::new();
    let rows = mask.len();
    let ghost cc = size_along(go, dir2);
    let mut i: usize = 0;
    while i < rows
        invariant
            slice_config(go, origin, dir1, dir2, normal, offset),
            go == *geometry,
            rows == mask@.len(),
            rows == size_along(go, dir1),
            cc == size_along(go, dir2),
            0 < rows <= 2 * COORD_LIMIT,
            0 < cc <= 2 * COORD_LIMIT,
            forall|a: int| 0 <= a < rows ==> (#[trigger] mask@[a])@.len() == cc,
            0 <= i <= rows,
            forall|a: int, b: int|
                0 <= a < rows && 0 <= b < cc && i <= a ==> ((#[trigger] mask@[a]@[b]) <==> free_at(
                    go,
                    origin,
                    dir1,
                    dir2,
                    normal,
                    offset,
                    quads@,
                    a,
                    b,
                )),
            forall|a: int, b: int|
                0 <= a < rows && 0 <= b < cc && a < i && #[trigger] vis_at(
                    go,
                    origin,
                    dir1,
                    dir2,
                    normal,
                    a,
                    b,
                ) ==> cov_at(go, origin, dir1, dir2, normal, offset, quads@, a, b),
            forall|k: int|
                0 <= k < quads@.len() ==> quad_somewhere(
                    go,
                    origin,
                    dir1,
                    dir2,
                    normal,
                    offset,
                    #[trigger] quads@[k],
                ),
            forall|a: int, b: int, k1: int, k2: int|
                0 <= k1 < quads@.len() && 0 <= k2 < quads@.len() && #[trigger] covers(
                    go,
                    origin,
                    dir1,
                    dir2,
                    normal,
                    offset,
                    quads@[k1],
                    a,
                    b,
                ) && #[trigger] covers(go, origin, dir1, dir2, normal, offset, quads@[k2], a, b)
                    ==> k1 == k2,
        decreases rows - i,
    {
        let mut j: usize = 0;
        let cols = mask[i].len();
        while j < cols
            invariant
                slice_config(go, origin, dir1, dir2, normal, offset),
                go == *geometry,
                rows == mask@.len(),
                rows == size_along(go, dir1),
                cc == size_along(go, dir2),
                cols == cc,
                0 < rows <= 2 * COORD_LIMIT,
                0 < cc <= 2 * COORD_LIMIT,
                forall|a: int| 0 <= a < rows ==> (#[trigger] mask@[a])@.len() == cc,
                0 <= i < rows,
                0 <= j <= cols,
                forall|a: int, b: int|
                    0 <= a < rows && 0 <= b < cc && (a > i || (a == i && j <= b)) ==> ((
                    #[trigger] mask@[a]@[b]) <==> free_at(
                        go,
                        origin,
                        dir1,
                        dir2,
                        normal,
                        offset,
                        quads@,
                        a,
                        b,
                    )),
                forall|a: int, b: int|
                    0 <= a < rows && 0 <= b < cc && (a < i || (a == i && b < j)) && #[trigger] vis_at(
                        go,
                        origin,
                        dir1,
                        dir2,
                        normal,
                        a,
                        b,
                    ) ==> cov_at(go, origin, dir1, dir2, normal, offset, quads@, a, b),
                forall|k: int|
                    0 <= k < quads@.len() ==> quad_somewhere(
                        go,
                        origin,
                        dir1,
                        dir2,
                        normal,
                        offset,
                        #[trigger] quads@[k],
                    ),
                forall|a: int, b: int, k1: int, k2: int|
                    0 <= k1 < quads@.len() && 0 <= k2 < quads@.len() && #[trigger] covers(
                        go,
                        origin,
                        dir1,
                        dir2,
                        normal,
                        offset,
                        quads@[k1],
                        a,
                        b,
                    ) && #[trigger] covers(go, origin, dir1, dir2, normal, offset, quads@[k2], a, b)
                        ==> k1 == k2,
            decreases cols - j,
        {
            if mask[i][j] {
                let ghost old_quads = quads@;
                let r = merge_rect(
                    geometry,
                    origin,
                    dir1,
                    dir2,
                    normal,
                    offset,
                    &mut mask,
                    Ghost(quads@),
                    i,
                    j,
                );
                let s1 = r.0;
                let s2 = r.1;
                proof {
                    assert forall|a: int, b: int|
                        i <= a < i + s1 && j <= b < j + s2 implies vis_at(
                        go,
                        origin,
                        dir1,
                        dir2,
                        normal,
                        a,
                        b,
                    ) by {
                        assert(free_at(go, origin, dir1, dir2, normal, offset, old_quads, a, b));
                    }
                }
                let q = emit_quad(geometry, origin, dir1, dir2, normal, offset, i, j, s1, s2);
                quads.push(q);
                proof {
                    assert(quads@ == old_quads.push(q));
                    // What the longer list covers: the old coverage plus the new rectangle.
                    assert forall|a: int, b: int|
                        #[trigger] cov_at(go, origin, dir1, dir2, normal, offset, quads@, a, b)
                            <==> (cov_at(go, origin, dir1, dir2, normal, offset, old_quads, a, b)
                            || (i <= a < i + s1 && j <= b < j + s2)) by {
                        lemma_cov_push(go, origin, dir1, dir2, normal, offset, old_quads, q, a, b);
                        lemma_covers_exact(
                            go,
                            origin,
                            dir1,
                            dir2,
                            normal,
                            offset,
                            q,
                            i as int,
                            j as int,
                            s1 as int,
                            s2 as int,
                            a,
                            b,
                        );
                    }
                    // Soundness of every quad in the longer list.
                    assert forall|k: int| 0 <= k < quads@.len() implies quad_somewhere(
                        go,
                        origin,
                        dir1,
                        dir2,
                        normal,
                        offset,
                        #[trigger] quads@[k],
                    ) by {
                        if k < old_quads.len() {
                            assert(quads@[k] == old_quads[k]);
                            assert(quad_somewhere(go, origin, dir1, dir2, normal, offset, old_quads[k]));
                        } else {
                            assert(quads@[k] == q);
                            assert(quad_at(
                                go,
                                origin,
                                dir1,
                                dir2,
                                normal,
                                offset,
                                quads@[k],
                                i as int,
                                j as int,
                                s1 as int,
                                s2 as int,
                            ));
                        }
                    }
                    // No cell is covered twice: the new rectangle was free.
                    assert forall|a: int, b: int, k1: int, k2: int|
                        0 <= k1 < quads@.len() && 0 <= k2 < quads@.len() && #[trigger] covers(
                            go,
                            origin,
                            dir1,
                            dir2,
                            normal,
                            offset,
                            quads@[k1],
                            a,
                            b,
                        ) && #[trigger] covers(go, origin, dir1, dir2, normal, offset, quads@[k2], a, b)
                            implies k1 == k2 by {
                        lemma_covers_exact(
                            go,
                            origin,
                            dir1,
                            dir2,
                            normal,
                            offset,
                            q,
                            i as int,
                            j as int,
                            s1 as int,
                            s2 as int,
                            a,
                            b,
                        );
                        if k1 < old_quads.len() && k2 < old_quads.len() {
                            assert(quads@[k1] == old_quads[k1] && quads@[k2] == old_quads[k2]);
                            assert(covers(go, origin, dir1, dir2, normal, offset, old_quads[k1], a, b));
                            assert(covers(go, origin, dir1, dir2, normal, offset, old_quads[k2], a, b));
                        } else if k1 < old_quads.len() {
                            assert(quads@[k2] == q);
                            assert(i <= a < i + s1 && j <= b < j + s2);
                            assert(free_at(go, origin, dir1, dir2, normal, offset, old_quads, a, b));
                            assert(quads@[k1] == old_quads[k1]);
                            assert(covers(go, origin, dir1, dir2, normal, offset, old_quads[k1], a, b));
                            assert(cov_at(go, origin, dir1, dir2, normal, offset, old_quads, a, b));
                            assert(false);
                        } else if k2 < old_quads.len() {
                            assert(quads@[k1] == q);
                            assert(i <= a < i + s1 && j <= b < j + s2);
                            assert(free_at(go, origin, dir1, dir2, normal, offset, old_quads, a, b));
                            assert(quads@[k2] == old_quads[k2]);
                            assert(covers(go, origin, dir1, dir2, normal, offset, old_quads[k2], a, b));
                            assert(cov_at(go, origin, dir1, dir2, normal, offset, old_quads, a, b));
                            assert(false);
                        }
                    }
                    // The scan at (i, j + 1) sees the remaining free cells.
                    assert forall|a: int, b: int|
                        0 <= a < rows && 0 <= b < cc && (a > i || (a == i && j + 1 <= b)) implies ((
                    #[trigger] mask@[a]@[b]) <==> free_at(
                        go,
                        origin,
                        dir1,
                        dir2,
                        normal,
                        offset,
                        quads@,
                        a,
                        b,
                    )) by {
                        lemma_cov_push(go, origin, dir1, dir2, normal, offset, old_quads, q, a, b);
                        lemma_covers_exact(
                            go,
                            origin,
                            dir1,
                            dir2,
                            normal,
                            offset,
                            q,
                            i as int,
                            j as int,
                            s1 as int,
                            s2 as int,
                            a,
                            b,
                        );
                        if i <= a < i + s1 && j <= b < j + s2 {
                            assert(!mask@[a]@[b]);
                        } else {
                            assert(mask@[a]@[b] <==> free_at(
                                go,
                                origin,
                                dir1,
                                dir2,
                                normal,
                                offset,
                                old_quads,
                                a,
                                b,
                            ));
                        }
                    }
                    // The anchor is visible and now covered.
                    assert(vis_at(go, origin, dir1, dir2, normal, i as int, j as int));
                    assert(covers(go, origin, dir1, dir2, normal, offset, q, i as int, j as int)) by {
                        lemma_covers_exact(
                            go,
                            origin,
                            dir1,
                            dir2,
                            normal,
                            offset,
                            q,
                            i as int,
                            j as int,
                            s1 as int,
                            s2 as int,
                            i as int,
                            j as int,
                        );
                    }
                    assert(covers(go, origin, dir1, dir2, normal, offset, quads@[old_quads.len() as int], i as int, j as int));
                    assert(cov_at(go, origin, dir1, dir2, normal, offset, quads@, i as int, j as int));
                }
            }
            j += 1;
        }
        i += 1;
    }
    quads
}

/// The six face orientations, in sweep order: +X, -X, +Y, -Y, +Z, -Z.
pub open spec fn onormal(o: int) -> Vec3i {
    if o == 0 {
        Vec3i { x: 1, y: 0, z: 0 }
    } else if o == 1 {
        Vec3i { x: -1i32, y: 0, z: 0 }
    } else if o == 2 {
        Vec3i { x: 0, y: 1, z: 0 }
    } else if o == 3 {
        Vec3i { x: 0, y: -1i32, z: 0 }
    } else if o == 4 {
        Vec3i { x: 0, y: 0, z: 1 }
    } else {
        Vec3i { x: 0, y: 0, z: -1i32 }
    }
}

/// The first in-plane sweep direction of each orientation.
pub open spec fn od1(o: int) -> Vec3i {
    if o == 2 {
        Vec3i { x: 0, y: 0, z: 1 }
    } else if o == 3 {
        Vec3i { x: 0, y: 0, z: -1i32 }
    } else {
        Vec3i { x: 0, y: 1, z: 0 }
    }
}

/// The second in-plane sweep direction of each orientation.
pub open spec fn od2(o: int) -> Vec3i {
    if o == 0 {
        Vec3i { x: 0, y: 0, z: 1 }
    } else if o == 1 {
        Vec3i { x: 0, y: 0, z: -1i32 }
    } else if o == 2 {
        Vec3i { x: 1, y: 0, z: 0 }
    } else if o == 3 {
        Vec3i { x: 1, y: 0, z: 0 }
    } else if o == 4 {
        Vec3i { x: -1i32, y: 0, z: 0 }
    } else {
        Vec3i { x: 1, y: 0, z: 0 }
    }
}

/// The vertex offset of each orientation.
pub open spec fn ooffset(o: int) -> Vec3i {
    proper_offset(onormal(o), od1(o), od2(o))
}

/// How many slices the sweep of orientation `o` visits.
pub open spec fn osteps(g: Geometry, o: int) -> int {
    if o == 0 || o == 1 {
        g.size.x as int
    } else if o == 2 || o == 3 {
        g.size.y as int
    } else {
        g.size.z as int
    }
}

/// The local origin of slice `n` of orientation `o`.
pub open spec fn oorigin(g: Geometry, o: int, n: int) -> Vec3i {
    if o == 0 {
        Vec3i { x: n as i32, y: 0, z: 0 }
    } else if o == 1 {
        Vec3i { x: (g.size.x - 1 - n) as i32, y: 0, z: (g.size.z - 1) as i32 }
    } else if o == 2 {
        Vec3i { x: 0, y: n as i32, z: 0 }
    } else if o == 3 {
        Vec3i { x: 0, y: (g.size.y - 1 - n) as i32, z: (g.size.z - 1) as i32 }
    } else if o == 4 {
        Vec3i { x: (g.size.x - 1) as i32, y: 0, z: n as i32 }
    } else {
        Vec3i { x: 0, y: 0, z: (g.size.z - 1 - n) as i32 }
    }
}

/// The quad is a face rectangle of a slice strictly before `(o, n)` in the
/// sweep order.
pub open spec fn fam_quad_before(g: Geometry, o: int, n: int, q: Quad) -> bool {
    exists|o1: int, n1: int|
        0 <= o1 < 6 && 0 <= n1 < osteps(g, o1) && (o1 < o || (o1 == o && n1 < n))
            && #[trigger] quad_somewhere(
            g,
            oorigin(g, o1, n1),
            od1(o1),
            od2(o1),
            onormal(o1),
            ooffset(o1),
            q,
        )
}

/// The quad is a face rectangle of some slice of some orientation.
pub open spec fn fam_quad_ok(g: Geometry, q: Quad) -> bool {
    fam_quad_before(g, 6, 0, q)
}

/// A quad attributed to a slice before `(o, osteps(g, o))` is attributed
/// before `(o + 1, 0)`.
pub proof fn lemma_fam_before_step(g: Geometry, o: int, q: Quad)
    requires
        fam_quad_before(g, o, osteps(g, o), q),
    ensures
        fam_quad_before(g, o + 1, 0, q),
{
    let (o1, n1) = choose|o1: int, n1: int|
        0 <= o1 < 6 && 0 <= n1 < osteps(g, o1) && (o1 < o || (o1 == o && n1 < osteps(g, o)))
            && #[trigger] quad_somewhere(
            g,
            oorigin(g, o1, n1),
            od1(o1),
            od2(o1),
            onormal(o1),
            ooffset(o1),
            q,
        );
    assert(o1 < o + 1);
    assert(quad_somewhere(g, oorigin(g, o1, n1), od1(o1), od2(o1), onormal(o1), ooffset(o1), q));
}

/// The contract of the whole mesh: every quad is a face rectangle of one of
/// the six sweeps, every visible face of every sweep is covered, and within
/// each sweep family no cell is covered twice.
pub open spec fn mesh_quads_ok(g: Geometry, qs: Seq<Quad>) -> bool {
    &&& forall|k: int| 0 <= k < qs.len() ==> fam_quad_ok(g, #[trigger] qs[k])
    &&& forall|o: int, n: int, a: int, b: int|
        0 <= o < 6 && 0 <= n < osteps(g, o) && 0 <= a < size_along(g, od1(o)) && 0 <= b
            < size_along(g, od2(o)) && #[trigger] vis_at(
            g,
            oorigin(g, o, n),
            od1(o),
            od2(o),
            onormal(o),
            a,
            b,
        ) ==> cov_at(g, oorigin(g, o, n), od1(o), od2(o), onormal(o), ooffset(o), qs, a, b)
    &&& forall|o: int, n: int, a: int, b: int, k1: int, k2: int|
        0 <= o < 6 && 0 <= n < osteps(g, o) && 0 <= k1 < qs.len() && 0 <= k2 < qs.len()
            && #[trigger] covers(
            g,
            oorigin(g, o, n),
            od1(o),
            od2(o),
            onormal(o),
            ooffset(o),
            qs[k1],
            a,
            b,
        ) && #[trigger] covers(
            g,
            oorigin(g, o, n),
            od1(o),
            od2(o),
            onormal(o),
            ooffset(o),
            qs[k2],
            a,
            b,
        ) ==> k1 == k2
}

/// Multiplying by a zero direction component contributes nothing.
proof fn lemma_mul_zero(x: int, y: int)
    ensures
        y == 0 ==> x * y == 0,
{
    assert(y == 0 ==> x * y == 0) by (nonlinear_arith);
}

/// A quad is a face rectangle of at most one slice of one orientation: the
/// normal names the orientation and the fixed vertex coordinate names the
/// slice.
pub proof fn lemma_family_unique(
    g: Geometry,
    q: Quad,
    o: int,
    n: int,
    i: int,
    j: int,
    s1: int,
    s2: int,
    o2: int,
    n2: int,
    i2: int,
    j2: int,
    s12: int,
    s22: int,
)
    requires
        g.wf(),
        0 <= o < 6,
        0 <= n < osteps(g, o),
        0 <= o2 < 6,
        0 <= n2 < osteps(g, o2),
        quad_at(g, oorigin(g, o, n), od1(o), od2(o), onormal(o), ooffset(o), q, i, j, s1, s2),
        quad_at(
            g,
            oorigin(g, o2, n2),
            od1(o2),
            od2(o2),
            onormal(o2),
            ooffset(o2),
            q,
            i2,
            j2,
            s12,
            s22,
        ),
    ensures
        o == o2,
        n == n2,
{
    assert(q.normal == onormal(o) && q.normal == onormal(o2));
    assert(o == o2);
    lemma_mul_zero(i, od1(o).x as int);
    lemma_mul_zero(j, od2(o).x as int);
    lemma_mul_zero(i2, od1(o).x as int);
    lemma_mul_zero(j2, od2(o).x as int);
    lemma_mul_zero(i, od1(o).y as int);
    lemma_mul_zero(j, od2(o).y as int);
    lemma_mul_zero(i2, od1(o).y as int);
    lemma_mul_zero(j2, od2(o).y as int);
    lemma_mul_zero(i, od1(o).z as int);
    lemma_mul_zero(j, od2(o).z as int);
    lemma_mul_zero(i2, od1(o).z as int);
    lemma_mul_zero(j2, od2(o).z as int);
    let v0x = q.vertices@[0].x as int;
    let v0y = q.vertices@[0].y as int;
    let v0z = q.vertices@[0].z as int;
    if o == 0 {
        assert(v0x == n + g.min.x + 1 && v0x == n2 + g.min.x + 1);
    } else if o == 1 {
        assert(v0x == g.size.x - 1 - n + g.min.x && v0x == g.size.x - 1 - n2 + g.min.x);
    } else if o == 2 {
        assert(v0y == n + g.min.y + 1 && v0y == n2 + g.min.y + 1);
    } else if o == 3 {
        assert(v0y == g.size.y - 1 - n + g.min.y && v0y == g.size.y - 1 - n2 + g.min.y);
    } else if o == 4 {
        assert(v0z == n + g.min.z + 1 && v0z == n2 + g.min.z + 1);
    } else {
        assert(v0z == g.size.z - 1 - n + g.min.z && v0z == g.size.z - 1 - n2 + g.min.z);
    }
}

/// Concatenation covers a cell exactly when one of the parts does.
pub proof fn lemma_cov_append(
    g: Geometry,
    origin: Vec3i,
    d1: Vec3i,
    d2: Vec3i,
    n: Vec3i,
    off: Vec3i,
    qs1: Seq<Quad>,
    qs2: Seq<Quad>,
    a: int,
    b: int,
)
    ensures
        cov_at(g, origin, d1, d2, n, off, qs1 + qs2, a, b) <==> (cov_at(
            g,
            origin,
            d1,
            d2,
            n,
            off,
            qs1,
            a,
            b,
        ) || cov_at(g, origin, d1, d2, n, off, qs2, a, b)),
{
    let qs = qs1 + qs2;
    if cov_at(g, origin, d1, d2, n, off, qs, a, b) {
        let k = choose|k: int| 0 <= k < qs.len() && covers(g, origin, d1, d2, n, off, qs[k], a, b);
        if k < qs1.len() {
            assert(qs[k] == qs1[k]);
            assert(covers(g, origin, d1, d2, n, off, qs1[k], a, b));
        } else {
            assert(qs[k] == qs2[k - qs1.len()]);
            assert(covers(g, origin, d1, d2, n, off, qs2[k - qs1.len()], a, b));
        }
    }
    if cov_at(g, origin, d1, d2, n, off, qs1, a, b) {
        let k = choose|k: int|
            0 <= k < qs1.len() && covers(g, origin, d1, d2, n, off, qs1[k], a, b);
        assert(qs[k] == qs1[k]);
        assert(covers(g, origin, d1, d2, n, off, qs[k], a, b));
    }
    if cov_at(g, origin, d1, d2, n, off, qs2, a, b) {
        let k = choose|k: int|
            0 <= k < qs2.len() && covers(g, origin, d1, d2, n, off, qs2[k], a, b);
        assert(qs[k + qs1.len()] == qs2[k]);
        assert(covers(g, origin, d1, d2, n, off, qs[k + qs1.len()], a, b));
    }
}

/// Appending the quads of slice `(o, n)` to a mesh built from the slices
/// before it keeps every quad attributed to one slice, keeps every covered
/// family covered, and keeps every family free of double coverage.
#[verifier::rlimit(100)]
pub proof fn lemma_mesh_extend(g: Geometry, o: int, n: int, olds: Seq<Quad>, part: Seq<Quad>)
    requires
        g.wf(),
        0 <= o < 6,
        0 <= n < osteps(g, o),
        forall|k: int| 0 <= k < olds.len() ==> fam_quad_before(g, o, n, #[trigger] olds[k]),
        forall|o1: int, n1: int, a: int, b: int|
            0 <= o1 < 6 && 0 <= n1 < osteps(g, o1) && (o1 < o || (o1 == o && n1 < n)) && 0 <= a
                < size_along(g, od1(o1)) && 0 <= b < size_along(g, od2(o1)) && #[trigger] vis_at(
                g,
                oorigin(g, o1, n1),
                od1(o1),
                od2(o1),
                onormal(o1),
                a,
                b,
            ) ==> cov_at(g, oorigin(g, o1, n1), od1(o1), od2(o1), onormal(o1), ooffset(o1), olds, a, b),
        forall|o1: int, n1: int, a: int, b: int, k1: int, k2: int|
            0 <= o1 < 6 && 0 <= n1 < osteps(g, o1) && 0 <= k1 < olds.len() && 0 <= k2 < olds.len()
                && #[trigger] covers(
                g,
                oorigin(g, o1, n1),
                od1(o1),
                od2(o1),
                onormal(o1),
                ooffset(o1),
                olds[k1],
                a,
                b,
            ) && #[trigger] covers(
                g,
                oorigin(g, o1, n1),
                od1(o1),
                od2(o1),
                onormal(o1),
                ooffset(o1),
                olds[k2],
                a,
                b,
            ) ==> k1 == k2,
        slice_quads_ok(g, oorigin(g, o, n), od1(o), od2(o), onormal(o), ooffset(o), part),
    ensures
        forall|k: int|
            0 <= k < (olds + part).len() ==> fam_quad_before(g, o, n + 1, #[trigger] (olds
                + part)[k]),
        forall|o1: int, n1: int, a: int, b: int|
            0 <= o1 < 6 && 0 <= n1 < osteps(g, o1) && (o1 < o || (o1 == o && n1 < n + 1)) && 0 <= a
                < size_along(g, od1(o1)) && 0 <= b < size_along(g, od2(o1)) && #[trigger] vis_at(
                g,
                oorigin(g, o1, n1),
                od1(o1),
                od2(o1),
                onormal(o1),
                a,
                b,
            ) ==> cov_at(
                g,
                oorigin(g, o1, n1),
                od1(o1),
                od2(o1),
                onormal(o1),
                ooffset(o1),
                olds + part,
                a,
                b,
            ),
        forall|o1: int, n1: int, a: int, b: int, k1: int, k2: int|
            0 <= o1 < 6 && 0 <= n1 < osteps(g, o1) && 0 <= k1 < (olds + part).len() && 0 <= k2 < (
            olds + part).len() && #[trigger] covers(
                g,
                oorigin(g, o1, n1),
                od1(o1),
                od2(o1),
                onormal(o1),
                ooffset(o1),
                (olds + part)[k1],
                a,
                b,
            ) && #[trigger] covers(
                g,
                oorigin(g, o1, n1),
                od1(o1),
                od2(o1),
                onormal(o1),
                ooffset(o1),
                (olds + part)[k2],
                a,
                b,
            ) ==> k1 == k2,
{
    // Attribution: old quads keep their slice, new quads belong to (o, n).
    assert forall|k: int| 0 <= k < (olds + part).len() implies fam_quad_before(
        g,
        o,
        n + 1,
        #[trigger] (olds + part)[k],
    ) by {
        if k < olds.len() {
            assert((olds + part)[k] == olds[k]);
            assert(fam_quad_before(g, o, n, olds[k]));
            let (o1, n1) = choose|o1: int, n1: int|
                0 <= o1 < 6 && 0 <= n1 < osteps(g, o1) && (o1 < o || (o1 == o && n1 < n))
                    && #[trigger] quad_somewhere(
                    g,
                    oorigin(g, o1, n1),
                    od1(o1),
                    od2(o1),
                    onormal(o1),
                    ooffset(o1),
                    olds[k],
                );
            assert(quad_somewhere(g, oorigin(g, o1, n1), od1(o1), od2(o1), onormal(o1), ooffset(o1), (olds + part)[k]));
        } else {
            assert((olds + part)[k] == part[k - olds.len()]);
            assert(quad_somewhere(g, oorigin(g, o, n), od1(o), od2(o), onormal(o), ooffset(o), (olds + part)[k]));
        }
    }
    // Coverage: earlier slices stay covered; the new slice is covered by `part`.
    assert forall|o1: int, n1: int, a: int, b: int|
        0 <= o1 < 6 && 0 <= n1 < osteps(g, o1) && (o1 < o || (o1 == o && n1 < n + 1)) && 0 <= a
            < size_along(g, od1(o1)) && 0 <= b < size_along(g, od2(o1)) && #[trigger] vis_at(
            g,
            oorigin(g, o1, n1),
            od1(o1),
            od2(o1),
            onormal(o1),
            a,
            b,
        ) implies cov_at(
        g,
        oorigin(g, o1, n1),
        od1(o1),
        od2(o1),
        onormal(o1),
        ooffset(o1),
        (olds + part),
        a,
        b,
    ) by {
        lemma_cov_append(
            g,
            oorigin(g, o1, n1),
            od1(o1),
            od2(o1),
            onormal(o1),
            ooffset(o1),
            olds,
            part,
            a,
            b,
        );
        if o1 == o && n1 == n {
            assert(cov_at(g, oorigin(g, o, n), od1(o), od2(o), onormal(o), ooffset(o), part, a, b));
        } else {
            assert(o1 < o || (o1 == o && n1 < n));
            assert(cov_at(g, oorigin(g, o1, n1), od1(o1), od2(o1), onormal(o1), ooffset(o1), olds, a, b));
        }
    }
    // Uniqueness: a quad covering a cell of family (o1, n1) belongs to that
    // slice, so two coverers are either both old or both new.
    assert forall|o1: int, n1: int, a: int, b: int, k1: int, k2: int|
        0 <= o1 < 6 && 0 <= n1 < osteps(g, o1) && 0 <= k1 < (olds + part).len() && 0 <= k2 < (olds + part).len()
            && #[trigger] covers(
            g,
            oorigin(g, o1, n1),
            od1(o1),
            od2(o1),
            onormal(o1),
            ooffset(o1),
            (olds + part)[k1],
            a,
            b,
        ) && #[trigger] covers(
            g,
            oorigin(g, o1, n1),
            od1(o1),
            od2(o1),
            onormal(o1),
            ooffset(o1),
            (olds + part)[k2],
            a,
            b,
        ) implies k1 == k2 by {
        lemma_coverer_slice(g, o, n, olds, part, o1, n1, a, b, k1);
        lemma_coverer_slice(g, o, n, olds, part, o1, n1, a, b, k2);
        if k1 < olds.len() && k2 < olds.len() {
            assert((olds + part)[k1] == olds[k1] && (olds + part)[k2] == olds[k2]);
            assert(covers(g, oorigin(g, o1, n1), od1(o1), od2(o1), onormal(o1), ooffset(o1), olds[k1], a, b));
            assert(covers(g, oorigin(g, o1, n1), od1(o1), od2(o1), onormal(o1), ooffset(o1), olds[k2], a, b));
        } else if k1 >= olds.len() && k2 >= olds.len() {
            assert(o1 == o && n1 == n);
            assert((olds + part)[k1] == part[k1 - olds.len()] && (olds + part)[k2] == part[k2 - olds.len()]);
            assert(covers(
                g,
                oorigin(g, o, n),
                od1(o),
                od2(o),
                onormal(o),
                ooffset(o),
                part[k1 - olds.len()],
                a,
                b,
            ));
            assert(covers(
                g,
                oorigin(g, o, n),
                od1(o),
                od2(o),
                onormal(o),
                ooffset(o),
                part[k2 - olds.len()],
                a,
                b,
            ));
            assert(k1 - olds.len() == k2 - olds.len());
        }
    }
}

/// A quad of the extended list that covers a cell of family `(o1, n1)` is an
/// old quad only if `(o1, n1)` comes before `(o, n)`, and a new quad only if
/// `(o1, n1)` is exactly `(o, n)`.
#[verifier::rlimit(100)]
proof fn lemma_coverer_slice(
    g: Geometry,
    o: int,
    n: int,
    olds: Seq<Quad>,
    part: Seq<Quad>,
    o1: int,
    n1: int,
    a: int,
    b: int,
    k: int,
)
    requires
        g.wf(),
        0 <= o < 6,
        0 <= n < osteps(g, o),
        0 <= o1 < 6,
        0 <= n1 < osteps(g, o1),
        0 <= k < (olds + part).len(),
        forall|k2: int| 0 <= k2 < olds.len() ==> fam_quad_before(g, o, n, #[trigger] olds[k2]),
        slice_quads_ok(g, oorigin(g, o, n), od1(o), od2(o), onormal(o), ooffset(o), part),
        covers(
            g,
            oorigin(g, o1, n1),
            od1(o1),
            od2(o1),
            onormal(o1),
            ooffset(o1),
            (olds + part)[k],
            a,
            b,
        ),
    ensures
        k < olds.len() ==> (o1 < o || (o1 == o && n1 < n)),
        k >= olds.len() ==> (o1 == o && n1 == n),
{
    let q = (olds + part)[k];
    let (i1, j1, t1, u1) = choose|i1: int, j1: int, t1: int, u1: int|
        quad_at(g, oorigin(g, o1, n1), od1(o1), od2(o1), onormal(o1), ooffset(o1), q, i1, j1, t1, u1)
            && i1 <= a < i1 + t1 && j1 <= b < j1 + u1;
    if k < olds.len() {
        assert(q == olds[k]);
        assert(fam_quad_before(g, o, n, olds[k]));
        let (o2, n2) = choose|o2: int, n2: int|
            0 <= o2 < 6 && 0 <= n2 < osteps(g, o2) && (o2 < o || (o2 == o && n2 < n))
                && #[trigger] quad_somewhere(
                g,
                oorigin(g, o2, n2),
                od1(o2),
                od2(o2),
                onormal(o2),
                ooffset(o2),
                olds[k],
            );
        let (i2, j2, t2, u2) = choose|i2: int, j2: int, t2: int, u2: int|
            quad_at(g, oorigin(g, o2, n2), od1(o2), od2(o2), onormal(o2), ooffset(o2), q, i2, j2, t2, u2);
        lemma_family_unique(g, q, o1, n1, i1, j1, t1, u1, o2, n2, i2, j2, t2, u2);
    } else {
        assert(q == part[k - olds.len()]);
        assert(quad_somewhere(g, oorigin(g, o, n), od1(o), od2(o), onormal(o), ooffset(o), q));
        let (i2, j2, t2, u2) = choose|i2: int, j2: int, t2: int, u2: int|
            quad_at(g, oorigin(g, o, n), od1(o), od2(o), onormal(o), ooffset(o), q, i2, j2, t2, u2);
        lemma_family_unique(g, q, o1, n1, i1, j1, t1, u1, o, n, i2, j2, t2, u2);
    }
}

/// Products of sweep indices with unit direction components.
proof fn lemma_mul_signs(i: int, j: int)
    ensures
        i * 1 == i && j * 1 == j,
        i * -1 == -i && j * -1 == -j,
        i * 0 == 0 && j * 0 == 0,
{
    assert(i * 1 == i && j * 1 == j && i * -1 == -i && j * -1 == -j && i * 0 == 0 && j * 0 == 0)
        by (nonlinear_arith);
}

/// Slice `n` of orientation `0` is a valid slice parameterization.
proof fn lemma_config_o0(g: Geometry, n: int)
    requires
        g.wf(),
        0 <= n < osteps(g, 0),
    ensures
        slice_config(g, oorigin(g, 0, n), od1(0), od2(0), onormal(0), ooffset(0)),
{
    let origin = oorigin(g, 0, n);
    let d1 = od1(0);
    let d2 = od2(0);
    assert forall|i: int, j: int|
        0 <= i < size_along(g, d1) && 0 <= j < size_along(g, d2) implies 0 <= #[trigger] cell_x(
        origin,
        d1,
        d2,
        i,
        j,
    ) < g.size.x && 0 <= cell_y(origin, d1, d2, i, j) < g.size.y && 0 <= cell_z(origin, d1, d2, i, j)
        < g.size.z by {
        lemma_mul_signs(i, j);
        assert(cell_x(origin, d1, d2, i, j) == n);
        assert(cell_y(origin, d1, d2, i, j) == i);
        assert(cell_z(origin, d1, d2, i, j) == j);
    }
}

/// Slice `n` of orientation `1` is a valid slice parameterization.
proof fn lemma_config_o1(g: Geometry, n: int)
    requires
        g.wf(),
        0 <= n < osteps(g, 1),
    ensures
        slice_config(g, oorigin(g, 1, n), od1(1), od2(1), onormal(1), ooffset(1)),
{
    let origin = oorigin(g, 1, n);
    let d1 = od1(1);
    let d2 = od2(1);
    assert forall|i: int, j: int|
        0 <= i < size_along(g, d1) && 0 <= j < size_along(g, d2) implies 0 <= #[trigger] cell_x(
        origin,
        d1,
        d2,
        i,
        j,
    ) < g.size.x && 0 <= cell_y(origin, d1, d2, i, j) < g.size.y && 0 <= cell_z(origin, d1, d2, i, j)
        < g.size.z by {
        lemma_mul_signs(i, j);
        assert(cell_x(origin, d1, d2, i, j) == g.size.x - 1 - n);
        assert(cell_y(origin, d1, d2, i, j) == i);
        assert(cell_z(origin, d1, d2, i, j) == g.size.z - 1 - j);
    }
}

/// Slice `n` of orientation `2` is a valid slice parameterization.
proof fn lemma_config_o2(g: Geometry, n: int)
    requires
        g.wf(),
        0 <= n < osteps(g, 2),
    ensures
        slice_config(g, oorigin(g, 2, n), od1(2), od2(2), onormal(2), ooffset(2)),
{
    let origin = oorigin(g, 2, n);
    let d1 = od1(2);
    let d2 = od2(2);
    assert forall|i: int, j: int|
        0 <= i < size_along(g, d1) && 0 <= j < size_along(g, d2) implies 0 <= #[trigger] cell_x(
        origin,
        d1,
        d2,
        i,
        j,
    ) < g.size.x && 0 <= cell_y(origin, d1, d2, i, j) < g.size.y && 0 <= cell_z(origin, d1, d2, i, j)
        < g.size.z by {
        lemma_mul_signs(i, j);
        assert(cell_x(origin, d1, d2, i, j) == j);
        assert(cell_y(origin, d1, d2, i, j) == n);
        assert(cell_z(origin, d1, d2, i, j) == i);
    }
}

/// Slice `n` of orientation `3` is a valid slice parameterization.
proof fn lemma_config_o3(g: Geometry, n: int)
    requires
        g.wf(),
        0 <= n < osteps(g, 3),
    ensures
        slice_config(g, oorigin(g, 3, n), od1(3), od2(3), onormal(3), ooffset(3)),
{
    let origin = oorigin(g, 3, n);
    let d1 = od1(3);
    let d2 = od2(3);
    assert forall|i: int, j: int|
        0 <= i < size_along(g, d1) && 0 <= j < size_along(g, d2) implies 0 <= #[trigger] cell_x(
        origin,
        d1,
        d2,
        i,
        j,
    ) < g.size.x && 0 <= cell_y(origin, d1, d2, i, j) < g.size.y && 0 <= cell_z(origin, d1, d2, i, j)
        < g.size.z by {
        lemma_mul_signs(i, j);
        assert(cell_x(origin, d1, d2, i, j) == j);
        assert(cell_y(origin, d1, d2, i, j) == g.size.y - 1 - n);
        assert(cell_z(origin, d1, d2, i, j) == g.size.z - 1 - i);
    }
}

/// Slice `n` of orientation `4` is a valid slice parameterization.
proof fn lemma_config_o4(g: Geometry, n: int)
    requires
        g.wf(),
        0 <= n < osteps(g, 4),
    ensures
        slice_config(g, oorigin(g, 4, n), od1(4), od2(4), onormal(4), ooffset(4)),
{
    let origin = oorigin(g, 4, n);
    let d1 = od1(4);
    let d2 = od2(4);
    assert forall|i: int, j: int|
        0 <= i < size_along(g, d1) && 0 <= j < size_along(g, d2) implies 0 <= #[trigger] cell_x(
        origin,
        d1,
        d2,
        i,
        j,
    ) < g.size.x && 0 <= cell_y(origin, d1, d2, i, j) < g.size.y && 0 <= cell_z(origin, d1, d2, i, j)
        < g.size.z by {
        lemma_mul_signs(i, j);
        assert(cell_x(origin, d1, d2, i, j) == g.size.x - 1 - j);
        assert(cell_y(origin, d1, d2, i, j) == i);
        assert(cell_z(origin, d1, d2, i, j) == n);
    }
}

/// Slice `n` of orientation `5` is a valid slice parameterization.
proof fn lemma_config_o5(g: Geometry, n: int)
    requires
        g.wf(),
        0 <= n < osteps(g, 5),
    ensures
        slice_config(g, oorigin(g, 5, n), od1(5), od2(5), onormal(5), ooffset(5)),
{
    let origin = oorigin(g, 5, n);
    let d1 = od1(5);
    let d2 = od2(5);
    assert forall|i: int, j: int|
        0 <= i < size_along(g, d1) && 0 <= j < size_along(g, d2) implies 0 <= #[trigger] cell_x(
        origin,
        d1,
        d2,
        i,
        j,
    ) < g.size.x && 0 <= cell_y(origin, d1, d2, i, j) < g.size.y && 0 <= cell_z(origin, d1, d2, i, j)
        < g.size.z by {
        lemma_mul_signs(i, j);
        assert(cell_x(origin, d1, d2, i, j) == j);
        assert(cell_y(origin, d1, d2, i, j) == i);
        assert(cell_z(origin, d1, d2, i, j) == g.size.z - 1 - n);
    }
}

/// The slice parameters of slice `n` of orientation `o`.
#[verifier::rlimit(100)]
fn fam_params(g: &Geometry, o: usize, n: i32) -> (t: (Vec3i, Vec3i, Vec3i, Vec3i, Vec3i))
    requires
        g.wf(),
        o < 6,
        0 <= n < osteps(*g, o as int),
    ensures
        t.0 == oorigin(*g, o as int, n as int),
        t.1 == od1(o as int),
        t.2 == od2(o as int),
        t.3 == onormal(o as int),
        t.4 == ooffset(o as int),
        slice_config(*g, t.0, t.1, t.2, t.3, t.4),
{
    let sx = g.size.x;
    let sy = g.size.y;
    let sz = g.size.z;
    if o == 0 {
        let t = (
            Vec3i { x: n, y: 0, z: 0 },
            Vec3i { x: 0, y: 1, z: 0 },
            Vec3i { x: 0, y: 0, z: 1 },
            Vec3i { x: 1, y: 0, z: 0 },
            Vec3i { x: 1, y: 0, z: 0 },
        );
        proof {
            lemma_config_o0(*g, n as int);
        }
        t
    } else if o == 1 {
        let t = (
            Vec3i { x: sx - 1 - n, y: 0, z: sz - 1 },
            Vec3i { x: 0, y: 1, z: 0 },
            Vec3i { x: 0, y: 0, z: -1 },
            Vec3i { x: -1, y: 0, z: 0 },
            Vec3i { x: 0, y: 0, z: 1 },
        );
        proof {
            lemma_config_o1(*g, n as int);
        }
        t
    } else if o == 2 {
        let t = (
            Vec3i { x: 0, y: n, z: 0 },
            Vec3i { x: 0, y: 0, z: 1 },
            Vec3i { x: 1, y: 0, z: 0 },
            Vec3i { x: 0, y: 1, z: 0 },
            Vec3i { x: 0, y: 1, z: 0 },
        );
        proof {
            lemma_config_o2(*g, n as int);
        }
        t
    } else if o == 3 {
        let t = (
            Vec3i { x: 0, y: sy - 1 - n, z: sz - 1 },
            Vec3i { x: 0, y: 0, z: -1 },
            Vec3i { x: 1, y: 0, z: 0 },
            Vec3i { x: 0, y: -1, z: 0 },
            Vec3i { x: 0, y: 0, z: 1 },
        );
        proof {
            lemma_config_o3(*g, n as int);
        }
        t
    } else if o == 4 {
        let t = (
            Vec3i { x: sx - 1, y: 0, z: n },
            Vec3i { x: 0, y: 1, z: 0 },
            Vec3i { x: -1, y: 0, z: 0 },
            Vec3i { x: 0, y: 0, z: 1 },
            Vec3i { x: 1, y: 0, z: 1 },
        );
        proof {
            lemma_config_o4(*g, n as int);
        }
        t
    } else {
        let t = (
            Vec3i { x: 0, y: 0, z: sz - 1 - n },
            Vec3i { x: 0, y: 1, z: 0 },
            Vec3i { x: 1, y: 0, z: 0 },
            Vec3i { x: 0, y: 0, z: -1 },
            Vec3i { x: 0, y: 0, z: 0 },
        );
        proof {
            lemma_config_o5(*g, n as int);
        }
        t
    }
}

/// Meshes the whole grid: sweeps slices across all six face orientations and
/// merges each slice's visible faces into quads.
#[verifier::rlimit(100)]
pub fn generate_quads(geometry: &Geometry) -> (quads: Vec<Quad>)
    requires
        geometry.wf(),
    ensures
        mesh_quads_ok(*geometry, quads@),
{
    let ghost go = *geometry;
    let mut quads: Vec<Quad> = Vec::new();
    let mut o: usize = 0;
    while o < 6
        invariant
            go == *geometry,
            go.wf(),
            0 <= o <= 6,
            forall|k: int|
                0 <= k < quads@.len() ==> fam_quad_before(go, o as int, 0, #[trigger] quads@[k]),
            forall|o1: int, n1: int, a: int, b: int|
                0 <= o1 < o && 0 <= n1 < osteps(go, o1) && 0 <= a < size_along(go, od1(o1)) && 0
                    <= b < size_along(go, od2(o1)) && #[trigger] vis_at(
                    go,
                    oorigin(go, o1, n1),
                    od1(o1),
                    od2(o1),
                    onormal(o1),
                    a,
                    b,
                ) ==> cov_at(go, oorigin(go, o1, n1), od1(o1), od2(o1), onormal(o1), ooffset(o1), quads@, a, b),
            forall|o1: int, n1: int, a: int, b: int, k1: int, k2: int|
                0 <= o1 < 6 && 0 <= n1 < osteps(go, o1) && 0 <= k1 < quads@.len() && 0 <= k2
                    < quads@.len() && #[trigger] covers(
                    go,
                    oorigin(go, o1, n1),
                    od1(o1),
                    od2(o1),
                    onormal(o1),
                    ooffset(o1),
                    quads@[k1],
                    a,
                    b,
                ) && #[trigger] covers(
                    go,
                    oorigin(go, o1, n1),
                    od1(o1),
                    od2(o1),
                    onormal(o1),
                    ooffset(o1),
                    quads@[k2],
                    a,
                    b,
                ) ==> k1 == k2,
        decreases 6 - o,
    {
        let steps = if o == 0 || o == 1 {
            geometry.size.x
        } else if o == 2 || o == 3 {
            geometry.size.y
        } else {
            geometry.size.z
        };
        let mut n: i32 = 0;
        while n < steps
            invariant
                go == *geometry,
                go.wf(),
                0 <= o < 6,
                steps == osteps(go, o as int),
                0 <= n <= steps,
                forall|k: int|
                    0 <= k < quads@.len() ==> fam_quad_before(
                        go,
                        o as int,
                        n as int,
                        #[trigger] quads@[k],
                    ),
                forall|o1: int, n1: int, a: int, b: int|
                    0 <= o1 < 6 && 0 <= n1 < osteps(go, o1) && (o1 < o || (o1 == o && n1 < n)) && 0
                        <= a < size_along(go, od1(o1)) && 0 <= b < size_along(go, od2(o1))
                        && #[trigger] vis_at(
                        go,
                        oorigin(go, o1, n1),
                        od1(o1),
                        od2(o1),
                        onormal(o1),
                        a,
                        b,
                    ) ==> cov_at(go, oorigin(go, o1, n1), od1(o1), od2(o1), onormal(o1), ooffset(o1), quads@, a, b),
                forall|o1: int, n1: int, a: int, b: int, k1: int, k2: int|
                    0 <= o1 < 6 && 0 <= n1 < osteps(go, o1) && 0 <= k1 < quads@.len() && 0 <= k2
                        < quads@.len() && #[trigger] covers(
                        go,
                        oorigin(go, o1, n1),
                        od1(o1),
                        od2(o1),
                        onormal(o1),
                        ooffset(o1),
                        quads@[k1],
                        a,
                        b,
                    ) && #[trigger] covers(
                        go,
                        oorigin(go, o1, n1),
                        od1(o1),
                        od2(o1),
                        onormal(o1),
                        ooffset(o1),
                        quads@[k2],
                        a,
                        b,
                    ) ==> k1 == k2,
            decreases steps - n,
        {
            let t = fam_params(geometry, o, n);
            let mut part = generate_quads_slice(geometry, t.0, t.1, t.2, t.3, t.4);
            let ghost old_quads = quads@;
            let ghost part_seq = part@;
            quads.append(&mut part);
            proof {
                assert(quads@ == old_quads + part_seq);
                lemma_mesh_extend(go, o as int, n as int, old_quads, part_seq);
            }
            n += 1;
        }
        proof {
            assert forall|k: int| 0 <= k < quads@.len() implies fam_quad_before(
                go,
                o + 1,
                0,
                #[trigger] quads@[k],
            ) by {
                lemma_fam_before_step(go, o as int, quads@[k]);
            }
        }
        o += 1;
    }
    quads
}

/// Outward-facing invariant: every cell of a face rectangle is an occupied
/// voxel whose neighbor one step along the quad's normal is out of the grid
/// or unoccupied, so the normal always points from solid into empty space.
pub proof fn lemma_quad_outward(
    g: Geometry,
    origin: Vec3i,
    d1: Vec3i,
    d2: Vec3i,
    n: Vec3i,
    off: Vec3i,
    q: Quad,
    i: int,
    j: int,
    s1: int,
    s2: int,
    a: int,
    b: int,
)
    requires
        quad_at(g, origin, d1, d2, n, off, q, i, j, s1, s2),
        i <= a < i + s1,
        j <= b < j + s2,
    ensures
        g.occupied_local(
            cell_x(origin, d1, d2, a, b),
            cell_y(origin, d1, d2, a, b),
            cell_z(origin, d1, d2, a, b),
        ),
        !g.occupied_local(
            cell_x(origin, d1, d2, a, b) + q.normal.x,
            cell_y(origin, d1, d2, a, b) + q.normal.y,
            cell_z(origin, d1, d2, a, b) + q.normal.z,
        ),
{
    assert(vis_at(g, origin, d1, d2, n, a, b));
}

/// No quad is emitted on an internal interface: a cell whose neighbor along
/// the slice normal is also occupied is covered by no face rectangle of the
/// slice. In particular two boxes sharing a full face emit no quad between
/// them.
pub proof fn lemma_no_internal_face(
    g: Geometry,
    origin: Vec3i,
    d1: Vec3i,
    d2: Vec3i,
    n: Vec3i,
    off: Vec3i,
    qs: Seq<Quad>,
    a: int,
    b: int,
)
    requires
        slice_quads_ok(g, origin, d1, d2, n, off, qs),
        g.occupied_local(
            cell_x(origin, d1, d2, a, b) + n.x,
            cell_y(origin, d1, d2, a, b) + n.y,
            cell_z(origin, d1, d2, a, b) + n.z,
        ),
    ensures
        forall|k: int, i: int, j: int, s1: int, s2: int|
            0 <= k < qs.len() && #[trigger] quad_at(g, origin, d1, d2, n, off, qs[k], i, j, s1, s2)
                ==> !(i <= a < i + s1 && j <= b < j + s2),
{
    assert forall|k: int, i: int, j: int, s1: int, s2: int|
        0 <= k < qs.len() && #[trigger] quad_at(g, origin, d1, d2, n, off, qs[k], i, j, s1, s2)
            implies !(i <= a < i + s1 && j <= b < j + s2) by {
        if i <= a < i + s1 && j <= b < j + s2 {
            assert(vis_at(g, origin, d1, d2, n, a, b));
            assert(false);
        }
    }
}

/// Outward-facing invariant for the whole mesh: every quad of a generated
/// mesh sits on a face between an occupied voxel and empty space along its
/// own normal.
pub proof fn lemma_mesh_quad_outward(g: Geometry, qs: Seq<Quad>, k: int)
    requires
        g.wf(),
        mesh_quads_ok(g, qs),
        0 <= k < qs.len(),
    ensures
        exists|x: int, y: int, z: int|
            #[trigger] g.occupied_local(x, y, z) && !g.occupied_local(
                x + qs[k].normal.x,
                y + qs[k].normal.y,
                z + qs[k].normal.z,
            ),
{
    assert(fam_quad_ok(g, qs[k]));
    let (o, n) = choose|o: int, n: int|
        0 <= o < 6 && 0 <= n < osteps(g, o) && (o < 6 || (o == 6 && n < 0))
            && #[trigger] quad_somewhere(
            g,
            oorigin(g, o, n),
            od1(o),
            od2(o),
            onormal(o),
            ooffset(o),
            qs[k],
        );
    let (i, j, s1, s2) = choose|i: int, j: int, s1: int, s2: int|
        quad_at(g, oorigin(g, o, n), od1(o), od2(o), onormal(o), ooffset(o), qs[k], i, j, s1, s2);
    lemma_quad_outward(
        g,
        oorigin(g, o, n),
        od1(o),
        od2(o),
        onormal(o),
        ooffset(o),
        qs[k],
        i,
        j,
        s1,
        s2,
        i,
        j,
    );
    let x = cell_x(oorigin(g, o, n), od1(o), od2(o), i, j);
    let y = cell_y(oorigin(g, o, n), od1(o), od2(o), i, j);
    let z = cell_z(oorigin(g, o, n), od1(o), od2(o), i, j);
    assert(g.occupied_local(x, y, z) && !g.occupied_local(
        x + qs[k].normal.x,
        y + qs[k].normal.y,
        z + qs[k].normal.z,
    ));
}

} // verus!
