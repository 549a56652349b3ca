//! Fixed-point coordinates and the shapes built from them.
//!
//! Every coordinate is a signed integer count of units; `UNITS_PER_PIXEL`
//! units make up the side of one raster cell.  Working in integers keeps the
//! arithmetic of the kernel exact and lets every contract be stated over
//! mathematical integers.

use vstd::prelude::*;

verus! {

/// Number of coordinate units along the side of one raster cell.
pub const UNITS_PER_PIXEL: i64 = 1024;

/// Largest magnitude a coordinate of an input mesh may have.
pub const COORD_LIMIT: i64 = 0x2000_0000;

/// Largest magnitude a coordinate may have once the mesh has been moved to
/// the origin.  Differences of two such coordinates, and products of two
/// such differences, fit in an `i64`.
pub const SPAN_LIMIT: i64 = 0x4000_0000;

/// The whole number of cells nearest to `v` units, halves rounded up;
/// below zero it is zero.
pub open spec fn nearest_cell(v: int) -> int {
    if v < 0 {
        0
    } else {
        (v + UNITS_PER_PIXEL / 2) / (UNITS_PER_PIXEL as int)
    }
}

/// A point in space.
#[derive(Clone, Copy, Debug, PartialEq, Eq, Structural)]
pub struct Vertex {
    pub x: i64,
    pub y: i64,
    pub z: i64,
}

impl Vertex {
    /// Every coordinate lies in `[-limit, limit]`.
    pub open spec fn within(self, limit: int) -> bool {
        &&& -limit <= self.x <= limit
        &&& -limit <= self.y <= limit
        &&& -limit <= self.z <= limit
    }

    /// The point as seen from `origin`.
    pub open spec fn relative_to(self, origin: Vertex) -> Vertex {
        Vertex {
            x: (self.x - origin.x) as i64,
            y: (self.y - origin.y) as i64,
            z: (self.z - origin.z) as i64,
        }
    }

    /// No coordinate is negative.
    pub open spec fn non_negative(self) -> bool {
        0 <= self.x && 0 <= self.y && 0 <= self.z
    }

    pub fn is_within(&self, limit: i64) -> (b: bool)
        requires
            0 <= limit,
        ensures
            b == self.within(limit as int),
    {
        -limit <= self.x && self.x <= limit && -limit <= self.y && self.y <= limit && -limit
            <= self.z && self.z <= limit
    }
}

/// A triangle of a mesh, given by the positions of its three corners in the
/// mesh's vertex list.
#[derive(Clone, Copy, Debug)]
pub struct Triangle {
    pub vertices: [usize; 3],
}

/// A triangle together with the coordinates of its corners, in the
/// triangle's own winding order.
#[derive(Clone, Copy, Debug, PartialEq, Eq, Structural)]
pub struct Facet {
    pub a: Vertex,
    pub b: Vertex,
    pub c: Vertex,
}

impl Facet {
    /// Corner number `k`: `a`, `b` and `c` are the corners 0, 1 and 2.
    pub open spec fn corner(self, k: int) -> Vertex {
        if k == 0 {
            self.a
        } else if k == 1 {
            self.b
        } else {
            self.c
        }
    }

    pub open spec fn within(self, limit: int) -> bool {
        self.a.within(limit) && self.b.within(limit) && self.c.within(limit)
    }

    /// Lowest height of the three corners.
    pub open spec fn min_z(self) -> int {
        if self.a.z <= self.b.z && self.a.z <= self.c.z {
            self.a.z as int
        } else if self.b.z <= self.c.z {
            self.b.z as int
        } else {
            self.c.z as int
        }
    }

    /// Greatest height of the three corners.
    pub open spec fn max_z(self) -> int {
        if self.a.z >= self.b.z && self.a.z >= self.c.z {
            self.a.z as int
        } else if self.b.z >= self.c.z {
            self.b.z as int
        } else {
            self.c.z as int
        }
    }

    /// Corner number `k` for `k` in `0..3`.
    pub fn get(&self, k: usize) -> (v: Vertex)
        requires
            k < 3,
        ensures
            v == self.corner(k as int),
    {
        if k == 0 {
            self.a
        } else if k == 1 {
            self.b
        } else {
            self.c
        }
    }

    pub fn lowest_z(&self) -> (z: i64)
        ensures
            z == self.min_z(),
    {
        let mut z: i64 = self.a.z;
        if self.b.z < z {
            z = self.b.z;
        }
        if self.c.z < z {
            z = self.c.z;
        }
        z
    }

    pub fn highest_z(&self) -> (z: i64)
        ensures
            z == self.max_z(),
    {
        let mut z: i64 = self.a.z;
        if self.b.z > z {
            z = self.b.z;
        }
        if self.c.z > z {
            z = self.c.z;
        }
        z
    }

    pub fn is_within(&self, limit: i64) -> (b: bool)
        requires
            0 <= limit,
        ensures
            b == self.within(limit as int),
    {
        self.a.is_within(limit) && self.b.is_within(limit) && self.c.is_within(limit)
    }
}

/// A directed piece of a contour: it runs from `first` to `second`.
#[derive(Clone, Copy, Debug, PartialEq, Eq, Structural)]
pub struct Segment {
    pub first: Vertex,
    pub second: Vertex,
}

impl Segment {
    pub open spec fn within(self, limit: int) -> bool {
        self.first.within(limit) && self.second.within(limit)
    }
}

/// An indexed triangle mesh.
#[derive(Clone, Debug)]
pub struct Mesh {
    pub vertices: Vec<Vertex>,
    pub faces: Vec<Triangle>,
}

impl Mesh {
    /// Every corner of every face names a vertex of the mesh.
    pub open spec fn indices_valid(&self) -> bool {
        forall|i: int, k: int|
            0 <= i < self.faces@.len() && 0 <= k < 3 ==> (#[trigger] self.faces@[i].vertices@[k])
                < self.vertices@.len()
    }

    /// Every coordinate lies in `[-limit, limit]`.
    pub open spec fn within(&self, limit: int) -> bool {
        forall|i: int|
            0 <= i < self.vertices@.len() ==> (#[trigger] self.vertices@[i]).within(limit)
    }

    /// A mesh the kernel accepts as input.
    pub open spec fn wf(&self) -> bool {
        self.indices_valid() && self.within(COORD_LIMIT as int)
    }

    /// Face `i` with its corners resolved to coordinates.
    pub open spec fn facet(&self, i: int) -> Facet {
        Facet {
            a: self.vertices@[self.faces@[i].vertices@[0] as int],
            b: self.vertices@[self.faces@[i].vertices@[1] as int],
            c: self.vertices@[self.faces@[i].vertices@[2] as int],
        }
    }

    /// All faces with their corners resolved, in the order of the faces.
    pub open spec fn facets(&self) -> Seq<Facet> {
        Seq::new(self.faces@.len(), |i: int| self.facet(i))
    }

    /// Resolves face `i` to the coordinates of its corners.
    pub fn resolve(&self, i: usize) -> (f: Facet)
        requires
            self.indices_valid(),
            i < self.faces@.len(),
        ensures
            f == self.facet(i as int),
    {
        let t = &self.faces[i];
        assert(t.vertices@[0] < self.vertices@.len());
        assert(t.vertices@[1] < self.vertices@.len());
        assert(t.vertices@[2] < self.vertices@.len());
        Facet {
            a: self.vertices[t.vertices[0]],
            b: self.vertices[t.vertices[1]],
            c: self.vertices[t.vertices[2]],
        }
    }

    /// Tells whether the mesh is acceptable input: its faces name existing
    /// vertices and no coordinate exceeds `COORD_LIMIT` in magnitude.
    pub fn is_well_formed(&self) -> (b: bool)
        ensures
            b == self.wf(),
    {
        let n = self.vertices.len();
        let mut i: usize = 0;
        while i < self.faces.len()
            invariant
                i <= self.faces@.len(),
                n == self.vertices@.len(),
                forall|a: int, k: int|
                    0 <= a < i && 0 <= k < 3 ==> (#[trigger] self.faces@[a].vertices@[k]) < n,
            decreases self.faces@.len() - i,
        {
            let t = &self.faces[i];
            if t.vertices[0] >= n || t.vertices[1] >= n || t.vertices[2] >= n {
                let ghost face = self.faces@[i as int];
                assert(!(face.vertices@[0] < n && face.vertices@[1] < n && face.vertices@[2] < n));
                return false;
            }
            i += 1;
        }
        let mut j: usize = 0;
        while j < n
            invariant
                j <= n,
                n == self.vertices@.len(),
                self.indices_valid(),
                forall|a: int|
                    0 <= a < j ==> (#[trigger] self.vertices@[a]).within(COORD_LIMIT as int),
            decreases n - j,
        {
            if !self.vertices[j].is_within(COORD_LIMIT) {
                return false;
            }
            j += 1;
        }
        true
    }
}

} // verus!
