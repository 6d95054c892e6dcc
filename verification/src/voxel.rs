//! Integer 3-vectors, voxel sets, and the CSG shape tree with its evaluator.

use vstd::prelude::*;
use vstd::seq_lib::*;

verus! {

/// Every coordinate handled by the library stays within this bound, so that
/// all coordinate arithmetic (including grid extents and face offsets) fits
/// comfortably in `i32` and grid allocations fit in `usize`.
pub const COORD_LIMIT: i32 = 1024;

/// An integer 3-vector: a voxel position or an axis direction.
#[derive(Clone, Copy, PartialEq, Eq, Structural, Debug)]
pub struct Vec3i {
    pub x: i32,
    pub y: i32,
    pub z: i32,
}

impl Vec3i {
    /// A position whose coordinates all lie within the working volume.
    pub open spec fn bounded(self) -> bool {
        -COORD_LIMIT <= self.x < COORD_LIMIT && -COORD_LIMIT <= self.y < COORD_LIMIT
            && -COORD_LIMIT <= self.z < COORD_LIMIT
    }

    /// Componentwise difference, truncated to `i32` (exact whenever it fits).
    pub open spec fn spec_sub(self, o: Vec3i) -> Vec3i {
        Vec3i { x: (self.x - o.x) as i32, y: (self.y - o.y) as i32, z: (self.z - o.z) as i32 }
    }

    pub fn new(x: i32, y: i32, z: i32) -> (r: Vec3i)
        ensures
            r == (Vec3i { x, y, z }),
    {
        Vec3i { x, y, z }
    }

    pub fn sub(self, o: Vec3i) -> (r: Vec3i)
        requires
            -0x4000_0000 <= self.x - o.x <= 0x4000_0000,
            -0x4000_0000 <= self.y - o.y <= 0x4000_0000,
            -0x4000_0000 <= self.z - o.z <= 0x4000_0000,
        ensures
            r == self.spec_sub(o),
            r.x == self.x - o.x && r.y == self.y - o.y && r.z == self.z - o.z,
    {
        Vec3i { x: self.x - o.x, y: self.y - o.y, z: self.z - o.z }
    }
}

/// An axis-aligned box of voxels: `corner` inclusive, `corner + size` exclusive.
#[derive(Clone, Copy, PartialEq, Eq, Structural, Debug)]
pub struct Cube {
    pub corner: Vec3i,
    pub size: Vec3i,
}

impl Cube {
    /// A valid box: strictly positive extents, and both corners inside the
    /// working volume (shape parameters are validated before evaluation).
    pub open spec fn wf(self) -> bool {
        0 < self.size.x && 0 < self.size.y && 0 < self.size.z && -COORD_LIMIT <= self.corner.x
            && -COORD_LIMIT <= self.corner.y && -COORD_LIMIT <= self.corner.z && self.corner.x
            + self.size.x <= COORD_LIMIT && self.corner.y + self.size.y <= COORD_LIMIT
            && self.corner.z + self.size.z <= COORD_LIMIT
    }

    /// Is `p` one of the voxels of this box?
    pub open spec fn contains_voxel(self, p: Vec3i) -> bool {
        &&& self.corner.x <= p.x < self.corner.x + self.size.x
        &&& self.corner.y <= p.y < self.corner.y + self.size.y
        &&& self.corner.z <= p.z < self.corner.z + self.size.z
    }

    /// The set of voxels this box occupies.
    pub open spec fn voxels(self) -> Set<Vec3i> {
        Set::new(|p: Vec3i| self.contains_voxel(p))
    }
}

/// A finite set of occupied voxel positions, stored without duplicates.
/// Its mathematical value is the set of positions it holds.
pub struct VoxelSet {
    pub items: Vec<Vec3i>,
}

impl View for VoxelSet {
    type V = Set<Vec3i>;

    open spec fn view(&self) -> Set<Vec3i> {
        self.items@.to_set()
    }
}

impl VoxelSet {
    /// No position occurs twice, and every position is within the working volume.
    pub open spec fn wf(self) -> bool {
        self.items@.no_duplicates() && forall|i: int|
            0 <= i < self.items@.len() ==> (#[trigger] self.items@[i]).bounded()
    }

    pub fn new() -> (r: VoxelSet)
        ensures
            r.wf(),
            r@ == Set::<Vec3i>::empty(),
    {
        let items: Vec<Vec3i> = Vec::new();
        proof {
            assert(items@.to_set() =~= Set::<Vec3i>::empty());
        }
        VoxelSet { items }
    }

    pub fn len(&self) -> (n: usize)
        requires
            self.wf(),
        ensures
            n == self@.len(),
    {
        proof {
            self.items@.unique_seq_to_set();
        }
        self.items.len()
    }

    pub fn contains(&self, p: Vec3i) -> (r: bool)
        ensures
            r == self@.contains(p),
    {
        let n = self.items.len();
        let mut i: usize = 0;
        while i < n
            invariant
                n == self.items@.len(),
                i <= n,
                forall|k: int| 0 <= k < i ==> self.items@[k] != p,
            decreases n - i,
        {
            if self.items[i] == p {
                proof {
                    assert(self.items@.contains(p));
                }
                return true;
            }
            i += 1;
        }
        proof {
            assert(!self.items@.contains(p));
        }
        false
    }

    /// Adds `p` if it is not already present.
    pub fn insert(&mut self, p: Vec3i)
        requires
            old(self).wf(),
            p.bounded(),
        ensures
            final(self).wf(),
            final(self)@ == old(self)@.insert(p),
    {
        let already = self.contains(p);
        if !already {
            proof {
                assert(!self.items@.contains(p));
            }
            self.items.push(p);
            proof {
                assert(self.items@ =~= old(self).items@ + seq![p]);
                Seq::lemma_to_set_insert_commutes(old(self).items@, p);
            }
        } else {
            proof {
                assert(old(self)@.insert(p) =~= old(self)@);
            }
        }
    }

    /// All positions of `self` or `other`.
    pub fn union(&self, other: &VoxelSet) -> (r: VoxelSet)
        requires
            self.wf(),
            other.wf(),
        ensures
            r.wf(),
            r@ == self@.union(other@),
    {
        let mut r = VoxelSet { items: Vec::new() };
        let n = self.items.len();
        let mut i: usize = 0;
        proof {
            assert(r.items@.to_set() =~= Set::<Vec3i>::empty());
        }
        while i < n
            invariant
                self.wf(),
                n == self.items@.len(),
                i <= n,
                r.wf(),
                r@ == self.items@.take(i as int).to_set(),
            decreases n - i,
        {
            let p = self.items[i];
            r.insert(p);
            proof {
                assert(self.items@.take(i + 1) =~= self.items@.take(i as int) + seq![p]);
                Seq::lemma_to_set_insert_commutes(self.items@.take(i as int), p);
            }
            i += 1;
        }
        proof {
            assert(self.items@.take(n as int) =~= self.items@);
        }
        let m = other.items.len();
        let mut j: usize = 0;
        while j < m
            invariant
                self.wf(),
                other.wf(),
                m == other.items@.len(),
                j <= m,
                r.wf(),
                r@ == self@.union(other.items@.take(j as int).to_set()),
            decreases m - j,
        {
            let p = other.items[j];
            r.insert(p);
            proof {
                assert(other.items@.take(j + 1) =~= other.items@.take(j as int) + seq![p]);
                Seq::lemma_to_set_insert_commutes(other.items@.take(j as int), p);
                assert(self@.union(other.items@.take(j as int).to_set()).insert(p) =~= self@.union(
                    other.items@.take(j + 1).to_set(),
                ));
            }
            j += 1;
        }
        proof {
            assert(other.items@.take(m as int) =~= other.items@);
        }
        r
    }

    /// The positions of `self` that are also in `other`.
    pub fn intersection(&self, other: &VoxelSet) -> (r: VoxelSet)
        requires
            self.wf(),
            other.wf(),
        ensures
            r.wf(),
            r@ == self@.intersect(other@),
    {
        let mut r = VoxelSet { items: Vec::new() };
        let n = self.items.len();
        let mut i: usize = 0;
        proof {
            assert(r.items@.to_set() =~= self.items@.take(0).to_set().intersect(other@));
        }
        while i < n
            invariant
                self.wf(),
                other.wf(),
                n == self.items@.len(),
                i <= n,
                r.wf(),
                r@ == self.items@.take(i as int).to_set().intersect(other@),
            decreases n - i,
        {
            let p = self.items[i];
            if other.contains(p) {
                r.insert(p);
            }
            proof {
                assert(self.items@.take(i + 1) =~= self.items@.take(i as int) + seq![p]);
                Seq::lemma_to_set_insert_commutes(self.items@.take(i as int), p);
                if other@.contains(p) {
                    assert(self.items@.take(i as int).to_set().intersect(other@).insert(p)
                        =~= self.items@.take(i + 1).to_set().intersect(other@));
                } else {
                    assert(self.items@.take(i as int).to_set().intersect(other@)
                        =~= self.items@.take(i + 1).to_set().intersect(other@));
                }
            }
            i += 1;
        }
        proof {
            assert(self.items@.take(n as int) =~= self.items@);
        }
        r
    }

    /// The positions of `self` that are not in `other`.
    pub fn difference(&self, other: &VoxelSet) -> (r: VoxelSet)
        requires
            self.wf(),
            other.wf(),
        ensures
            r.wf(),
            r@ == self@.difference(other@),
    {
        let mut r = VoxelSet { items: Vec::new() };
        let n = self.items.len();
        let mut i: usize = 0;
        proof {
            assert(r.items@.to_set() =~= self.items@.take(0).to_set().difference(other@));
        }
        while i < n
            invariant
                self.wf(),
                other.wf(),
                n == self.items@.len(),
                i <= n,
                r.wf(),
                r@ == self.items@.take(i as int).to_set().difference(other@),
            decreases n - i,
        {
            let p = self.items[i];
            if !other.contains(p) {
                r.insert(p);
            }
            proof {
                assert(self.items@.take(i + 1) =~= self.items@.take(i as int) + seq![p]);
                Seq::lemma_to_set_insert_commutes(self.items@.take(i as int), p);
                if !other@.contains(p) {
                    assert(self.items@.take(i as int).to_set().difference(other@).insert(p)
                        =~= self.items@.take(i + 1).to_set().difference(other@));
                } else {
                    assert(self.items@.take(i as int).to_set().difference(other@)
                        =~= self.items@.take(i + 1).to_set().difference(other@));
                }
            }
            i += 1;
        }
        proof {
            assert(self.items@.take(n as int) =~= self.items@);
        }
        r
    }

    /// The positions in exactly one of the two sets.
    pub fn symmetric_difference(&self, other: &VoxelSet) -> (r: VoxelSet)
        requires
            self.wf(),
            other.wf(),
        ensures
            r.wf(),
            r@ == self@.difference(other@).union(other@.difference(self@)),
    {
        let a = self.difference(other);
        let b = other.difference(self);
        a.union(&b)
    }
}

/// The neighbor of `p` at index `k` of the 3x3x3 cube around it, walked in
/// x-major order; index 13 is `p` itself.
pub open spec fn nbr(p: Vec3i, k: int) -> Vec3i {
    Vec3i {
        x: (p.x + (k / 9 - 1)) as i32,
        y: (p.y + ((k / 3) % 3 - 1)) as i32,
        z: (p.z + (k % 3 - 1)) as i32,
    }
}

/// How many of the first `n` positions of the 3x3x3 cube around `p` are
/// unoccupied in `s`.
pub open spec fn empty_upto(s: Set<Vec3i>, p: Vec3i, n: int) -> int
    decreases n,
{
    if n <= 0 {
        0
    } else {
        empty_upto(s, p, n - 1) + if s.contains(nbr(p, n - 1)) {
            0int
        } else {
            1int
        }
    }
}

/// The number of unoccupied positions in the full 3x3x3 cube around `p`
/// (for `p` itself occupied this counts its 26 neighbors).
pub open spec fn empty_neighbors(s: Set<Vec3i>, p: Vec3i) -> int {
    empty_upto(s, p, 27)
}

/// The wireframe rule: a voxel of the child shape is kept exactly when the
/// count of unoccupied neighbors is greater than 9 or exactly 3. The
/// threshold is part of the shape language and has no simpler restatement.
pub open spec fn wire_keep(s: Set<Vec3i>, p: Vec3i) -> bool {
    empty_neighbors(s, p) > 9 || empty_neighbors(s, p) == 3
}

/// A shape description: axis-aligned boxes combined by set algebra, plus a
/// wireframe filter that keeps only skeleton voxels of its child shape.
#[derive(Debug)]
pub enum GeometryObject {
    Cube(Cube),
    Intersection(Box<GeometryObject>, Box<GeometryObject>),
    Union(Box<GeometryObject>, Box<GeometryObject>),
    Minus(Box<GeometryObject>, Box<GeometryObject>),
    SymmetricDifference(Box<GeometryObject>, Box<GeometryObject>),
    Wireframe(Box<GeometryObject>),
}

impl GeometryObject {
    /// Every box in the tree is valid.
    pub open spec fn wf(self) -> bool
        decreases self,
    {
        match self {
            GeometryObject::Cube(c) => c.wf(),
            GeometryObject::Intersection(l, r) => l.wf() && r.wf(),
            GeometryObject::Union(l, r) => l.wf() && r.wf(),
            GeometryObject::Minus(l, r) => l.wf() && r.wf(),
            GeometryObject::SymmetricDifference(l, r) => l.wf() && r.wf(),
            GeometryObject::Wireframe(ch) => ch.wf(),
        }
    }

    /// The set of voxels the shape denotes.
    pub open spec fn voxels_spec(self) -> Set<Vec3i>
        decreases self,
    {
        match self {
            GeometryObject::Cube(c) => c.voxels(),
            GeometryObject::Intersection(l, r) => l.voxels_spec().intersect(r.voxels_spec()),
            GeometryObject::Union(l, r) => l.voxels_spec().union(r.voxels_spec()),
            GeometryObject::Minus(l, r) => l.voxels_spec().difference(r.voxels_spec()),
            GeometryObject::SymmetricDifference(l, r) => l.voxels_spec().difference(
                r.voxels_spec(),
            ).union(r.voxels_spec().difference(l.voxels_spec())),
            GeometryObject::Wireframe(ch) => ch.voxels_spec().filter(
                |p: Vec3i| wire_keep(ch.voxels_spec(), p),
            ),
        }
    }

    /// Evaluates the shape to its set of occupied voxel positions.
    pub fn get_voxels(&self) -> (r: VoxelSet)
        requires
            self.wf(),
        ensures
            r.wf(),
            r@ == self.voxels_spec(),
        decreases *self,
    {
        match self {
            GeometryObject::Cube(c) => cube_voxels(c),
            GeometryObject::Intersection(l, r) => {
                let a = l.get_voxels();
                let b = r.get_voxels();
                a.intersection(&b)
            },
            GeometryObject::Union(l, r) => {
                let a = l.get_voxels();
                let b = r.get_voxels();
                a.union(&b)
            },
            GeometryObject::Minus(l, r) => {
                let a = l.get_voxels();
                let b = r.get_voxels();
                a.difference(&b)
            },
            GeometryObject::SymmetricDifference(l, r) => {
                let a = l.get_voxels();
                let b = r.get_voxels();
                a.symmetric_difference(&b)
            },
            GeometryObject::Wireframe(ch) => {
                let vs = ch.get_voxels();
                wireframe_voxels(&vs, Ghost(ch.voxels_spec()))
            },
        }
    }
}

/// The voxels of `c` whose offset from the corner is lexicographically below
/// `(xi, yi, zi)`: the part a row-major sweep has visited.
pub open spec fn box_prefix(c: Cube, xi: int, yi: int, zi: int) -> Set<Vec3i> {
    Set::new(
        |p: Vec3i|
            c.contains_voxel(p) && (p.x - c.corner.x < xi || (p.x - c.corner.x == xi && (p.y
                - c.corner.y < yi || (p.y - c.corner.y == yi && p.z - c.corner.z < zi)))),
    )
}

/// All positions of the box, by a sweep over the three extents.
fn cube_voxels(c: &Cube) -> (r: VoxelSet)
    requires
        c.wf(),
    ensures
        r.wf(),
        r@ == c.voxels(),
{
    let mut r = VoxelSet::new();
    proof {
        assert(r@ =~= box_prefix(*c, 0, 0, 0));
    }
    let mut x: i32 = 0;
    while x < c.size.x
        invariant
            c.wf(),
            0 <= x <= c.size.x,
            r.wf(),
            r@ == box_prefix(*c, x as int, 0, 0),
        decreases c.size.x - x,
    {
        let mut y: i32 = 0;
        while y < c.size.y
            invariant
                c.wf(),
                0 <= x < c.size.x,
                0 <= y <= c.size.y,
                r.wf(),
                r@ == box_prefix(*c, x as int, y as int, 0),
            decreases c.size.y - y,
        {
            let mut z: i32 = 0;
            while z < c.size.z
                invariant
                    c.wf(),
                    0 <= x < c.size.x,
                    0 <= y < c.size.y,
                    0 <= z <= c.size.z,
                    r.wf(),
                    r@ == box_prefix(*c, x as int, y as int, z as int),
                decreases c.size.z - z,
            {
                let p = Vec3i {
                    x: c.corner.x + x,
                    y: c.corner.y + y,
                    z: c.corner.z + z,
                };
                r.insert(p);
                proof {
                    assert(box_prefix(*c, x as int, y as int, z as int).insert(p) =~= box_prefix(
                        *c,
                        x as int,
                        y as int,
                        z + 1,
                    ));
                }
                z += 1;
            }
            proof {
                assert(box_prefix(*c, x as int, y as int, c.size.z as int) =~= box_prefix(
                    *c,
                    x as int,
                    y + 1,
                    0,
                ));
            }
            y += 1;
        }
        proof {
            assert(box_prefix(*c, x as int, c.size.y as int, 0) =~= box_prefix(*c, x + 1, 0, 0));
        }
        x += 1;
    }
    proof {
        assert(box_prefix(*c, c.size.x as int, 0, 0) =~= c.voxels());
    }
    r
}

/// How many of the 3x3x3 cube positions around `p` are missing from `vs`.
fn count_empty_neighbors(vs: &VoxelSet, p: Vec3i) -> (cnt: u32)
    requires
        p.bounded(),
    ensures
        cnt == empty_neighbors(vs@, p),
{
    let mut cnt: u32 = 0;
    let mut k: usize = 0;
    while k < 27
        invariant
            p.bounded(),
            k <= 27,
            cnt <= k,
            cnt == empty_upto(vs@, p, k as int),
        decreases 27 - k,
    {
        let dx = (k / 9) as i32 - 1;
        let dy = ((k / 3) % 3) as i32 - 1;
        let dz = (k % 3) as i32 - 1;
        let q = Vec3i { x: p.x + dx, y: p.y + dy, z: p.z + dz };
        proof {
            assert(q == nbr(p, k as int));
        }
        if !vs.contains(q) {
            cnt += 1;
        }
        k += 1;
    }
    cnt
}

/// Keeps the voxels of `vs` that the wireframe rule selects. The ghost
/// argument names the set `vs` stands for, so that the filter is stated over
/// the child shape's full voxel set.
fn wireframe_voxels(vs: &VoxelSet, full: Ghost<Set<Vec3i>>) -> (r: VoxelSet)
    requires
        vs.wf(),
        vs@ == full@,
    ensures
        r.wf(),
        r@ == full@.filter(|p: Vec3i| wire_keep(full@, p)),
{
    let mut r = VoxelSet::new();
    let n = vs.items.len();
    let mut t: usize = 0;
    proof {
        assert(r@ =~= vs.items@.take(0).to_set().filter(|p: Vec3i| wire_keep(full@, p)));
    }
    while t < n
        invariant
            vs.wf(),
            vs@ == full@,
            n == vs.items@.len(),
            t <= n,
            r.wf(),
            r@ == vs.items@.take(t as int).to_set().filter(|p: Vec3i| wire_keep(full@, p)),
        decreases n - t,
    {
        let p = vs.items[t];
        let cnt = count_empty_neighbors(vs, p);
        if cnt > 9 || cnt == 3 {
            r.insert(p);
        }
        proof {
            assert(vs.items@.take(t + 1) =~= vs.items@.take(t as int) + seq![p]);
            Seq::lemma_to_set_insert_commutes(vs.items@.take(t as int), p);
            let f = |q: Vec3i| wire_keep(full@, q);
            if wire_keep(full@, p) {
                assert(vs.items@.take(t as int).to_set().filter(f).insert(p)
                    =~= vs.items@.take(t + 1).to_set().filter(f));
            } else {
                assert(vs.items@.take(t as int).to_set().filter(f) =~= vs.items@.take(
                    t + 1,
                ).to_set().filter(f));
            }
        }
        t += 1;
    }
    proof {
        assert(vs.items@.take(n as int) =~= vs.items@);
        assert(vs.items@.to_set().filter(|p: Vec3i| wire_keep(full@, p)) =~= full@.filter(
            |p: Vec3i| wire_keep(full@, p),
        ));
    }
    r
}

/// A finite set split into two disjoint parts has the sum of their sizes.
pub proof fn lemma_disjoint_union_len<A>(s1: Set<A>, s2: Set<A>)
    requires
        s1.finite(),
        s2.finite(),
        s1.disjoint(s2),
    ensures
        s1.union(s2).finite(),
        s1.union(s2).len() == s1.len() + s2.len(),
    decreases s2.len(),
{
    if s2.len() == 0 {
        s2.lemma_len0_is_empty();
        assert(s1.union(s2) =~= s1);
    } else {
        let a = s2.choose();
        assert(s2.contains(a));
        lemma_disjoint_union_len(s1, s2.remove(a));
        assert(s1.union(s2) =~= s1.union(s2.remove(a)).insert(a));
        assert(!s1.union(s2.remove(a)).contains(a));
    }
}

/// A box of size `(a, b, c)` occupies exactly `a * b * c` distinct positions.
pub proof fn lemma_box_voxel_count(c: Cube)
    requires
        c.wf(),
    ensures
        c.voxels().finite(),
        c.voxels().len() == c.size.x * c.size.y * c.size.z,
    decreases c.size.x, c.size.y, c.size.z,
{
    let sx = c.size.x;
    let sy = c.size.y;
    let sz = c.size.z;
    if sz > 1 {
        let c1 = Cube { corner: c.corner, size: Vec3i { x: sx, y: sy, z: (sz - 1) as i32 } };
        let c2 = Cube {
            corner: Vec3i { x: c.corner.x, y: c.corner.y, z: (c.corner.z + sz - 1) as i32 },
            size: Vec3i { x: sx, y: sy, z: 1 },
        };
        lemma_box_voxel_count(c1);
        lemma_box_voxel_count(c2);
        assert(c.voxels() =~= c1.voxels().union(c2.voxels()));
        lemma_disjoint_union_len(c1.voxels(), c2.voxels());
        assert(sx * sy * (sz - 1) + sx * sy * 1 == sx * sy * sz) by (nonlinear_arith);
    } else if sy > 1 {
        let c1 = Cube { corner: c.corner, size: Vec3i { x: sx, y: (sy - 1) as i32, z: sz } };
        let c2 = Cube {
            corner: Vec3i { x: c.corner.x, y: (c.corner.y + sy - 1) as i32, z: c.corner.z },
            size: Vec3i { x: sx, y: 1, z: sz },
        };
        lemma_box_voxel_count(c1);
        lemma_box_voxel_count(c2);
        assert(c.voxels() =~= c1.voxels().union(c2.voxels()));
        lemma_disjoint_union_len(c1.voxels(), c2.voxels());
        assert(sx * (sy - 1) * sz + sx * 1 * sz == sx * sy * sz) by (nonlinear_arith);
    } else if sx > 1 {
        let c1 = Cube { corner: c.corner, size: Vec3i { x: (sx - 1) as i32, y: sy, z: sz } };
        let c2 = Cube {
            corner: Vec3i { x: (c.corner.x + sx - 1) as i32, y: c.corner.y, z: c.corner.z },
            size: Vec3i { x: 1, y: sy, z: sz },
        };
        lemma_box_voxel_count(c1);
        lemma_box_voxel_count(c2);
        assert(c.voxels() =~= c1.voxels().union(c2.voxels()));
        lemma_disjoint_union_len(c1.voxels(), c2.voxels());
        assert((sx - 1) * sy * sz + 1 * sy * sz == sx * sy * sz) by (nonlinear_arith);
    } else {
        assert(c.voxels() =~= Set::empty().insert(c.corner));
    }
}

/// Union is commutative.
pub proof fn lemma_union_commutes(l: Box<GeometryObject>, r: Box<GeometryObject>)
    ensures
        GeometryObject::Union(l, r).voxels_spec() == GeometryObject::Union(r, l).voxels_spec(),
{
    assert(GeometryObject::Union(l, r).voxels_spec() =~= GeometryObject::Union(
        r,
        l,
    ).voxels_spec());
}

/// Intersection is commutative.
pub proof fn lemma_intersection_commutes(l: Box<GeometryObject>, r: Box<GeometryObject>)
    ensures
        GeometryObject::Intersection(l, r).voxels_spec() == GeometryObject::Intersection(
            r,
            l,
        ).voxels_spec(),
{
    assert(GeometryObject::Intersection(l, r).voxels_spec() =~= GeometryObject::Intersection(
        r,
        l,
    ).voxels_spec());
}

/// Symmetric difference is commutative.
pub proof fn lemma_symmetric_difference_commutes(l: Box<GeometryObject>, r: Box<GeometryObject>)
    ensures
        GeometryObject::SymmetricDifference(l, r).voxels_spec()
            == GeometryObject::SymmetricDifference(r, l).voxels_spec(),
{
    assert(GeometryObject::SymmetricDifference(l, r).voxels_spec()
        =~= GeometryObject::SymmetricDifference(r, l).voxels_spec());
}

/// Subtracting a shape is the same as intersecting with its complement taken
/// relative to any universe that covers the left shape.
pub proof fn lemma_minus_as_complement(
    l: Box<GeometryObject>,
    r: Box<GeometryObject>,
    u: Set<Vec3i>,
)
    requires
        l.voxels_spec().subset_of(u),
    ensures
        GeometryObject::Minus(l, r).voxels_spec() == l.voxels_spec().intersect(
            u.difference(r.voxels_spec()),
        ),
{
    assert(GeometryObject::Minus(l, r).voxels_spec() =~= l.voxels_spec().intersect(
        u.difference(r.voxels_spec()),
    ));
}

} // verus!
