//! The axis-aligned box around a set of vertices.

use crate::geometry::{Vertex, COORD_LIMIT, UNITS_PER_PIXEL};
use vstd::prelude::*;

verus! {

/// One `(min, max)` pair per axis.
///
/// A box that has seen no vertex holds `(i64::MAX, i64::MIN)` on every axis,
/// so that the first vertex it sees sets both ends of every pair.
#[derive(Clone, Copy, Debug, PartialEq, Eq)]
pub struct BoundingBox {
    pub x: (i64, i64),
    pub y: (i64, i64),
    pub z: (i64, i64),
}

/// `(min, max)` widened just enough to hold `v`.
pub open spec fn stretch(pair: (i64, i64), v: i64) -> (i64, i64) {
    (
        if v < pair.0 {
            v
        } else {
            pair.0
        },
        if v > pair.1 {
            v
        } else {
            pair.1
        },
    )
}

/// Number of raster cells needed to cover `[lo, hi]`: the extent in cells,
/// rounded up.
pub open spec fn cells_spanned(lo: int, hi: int) -> int {
    (hi - lo + UNITS_PER_PIXEL - 1) / (UNITS_PER_PIXEL as int)
}

impl BoundingBox {
    /// The box that has seen no vertex.
    pub open spec fn empty() -> BoundingBox {
        BoundingBox {
            x: (i64::MAX, i64::MIN),
            y: (i64::MAX, i64::MIN),
            z: (i64::MAX, i64::MIN),
        }
    }

    /// The smallest box that holds both `self` and `v`.
    pub open spec fn extended(self, v: Vertex) -> BoundingBox {
        BoundingBox { x: stretch(self.x, v.x), y: stretch(self.y, v.y), z: stretch(self.z, v.z) }
    }

    /// The box around all of `vs`, taken one vertex after the other.
    pub open spec fn of(vs: Seq<Vertex>) -> BoundingBox
        decreases vs.len(),
    {
        if vs.len() == 0 {
            Self::empty()
        } else {
            Self::of(vs.drop_last()).extended(vs.last())
        }
    }

    /// `v` lies inside the box, faces included.
    pub open spec fn encloses(self, v: Vertex) -> bool {
        &&& self.x.0 <= v.x <= self.x.1
        &&& self.y.0 <= v.y <= self.y.1
        &&& self.z.0 <= v.z <= self.z.1
    }

    /// On every axis the minimum does not exceed the maximum.
    pub open spec fn ordered(self) -> bool {
        self.x.0 <= self.x.1 && self.y.0 <= self.y.1 && self.z.0 <= self.z.1
    }

    /// The corner with the least coordinate on every axis.
    pub open spec fn low_corner(self) -> Vertex {
        Vertex { x: self.x.0, y: self.y.0, z: self.z.0 }
    }

    /// The corner with the greatest coordinate on every axis.
    pub open spec fn high_corner(self) -> Vertex {
        Vertex { x: self.x.1, y: self.y.1, z: self.z.1 }
    }

    pub fn new() -> (b: Self)
        ensures
            b == Self::empty(),
    {
        BoundingBox {
            x: (i64::MAX, i64::MIN),
            y: (i64::MAX, i64::MIN),
            z: (i64::MAX, i64::MIN),
        }
    }

    /// Widens the box so that it holds `vertex`.
    pub fn update(&mut self, vertex: &Vertex)
        ensures
            *final(self) == old(self).extended(*vertex),
            final(self).encloses(*vertex),
    {
        if vertex.x > self.x.1 {
            self.x.1 = vertex.x;
        }
        if vertex.x < self.x.0 {
            self.x.0 = vertex.x;
        }
        if vertex.y > self.y.1 {
            self.y.1 = vertex.y;
        }
        if vertex.y < self.y.0 {
            self.y.0 = vertex.y;
        }
        if vertex.z > self.z.1 {
            self.z.1 = vertex.z;
        }
        if vertex.z < self.z.0 {
            self.z.0 = vertex.z;
        }
    }

    /// The box around a list of vertices.
    pub fn around(vertices: &Vec<Vertex>) -> (b: Self)
        ensures
            b == Self::of(vertices@),
    {
        let mut b = BoundingBox::new();
        let mut i: usize = 0;
        while i < vertices.len()
            invariant
                i <= vertices@.len(),
                b == Self::of(vertices@.take(i as int)),
            decreases vertices@.len() - i,
        {
            assert(vertices@.take(i + 1).drop_last() =~= vertices@.take(i as int));
            b.update(&vertices[i]);
            i += 1;
        }
        assert(vertices@.take(i as int) =~= vertices@);
        b
    }

    /// Width and height, in raster cells, of a layer that covers the box:
    /// its extent along x and along y, each rounded up to whole cells.
    pub fn layer_size(&self) -> (size: (usize, usize))
        requires
            self.ordered(),
            self.low_corner().within(COORD_LIMIT as int),
            self.high_corner().within(COORD_LIMIT as int),
        ensures
            size.0 == cells_spanned(self.x.0 as int, self.x.1 as int),
            size.1 == cells_spanned(self.y.0 as int, self.y.1 as int),
    {
        let w: i64 = (self.x.1 - self.x.0 + (UNITS_PER_PIXEL - 1)) / UNITS_PER_PIXEL;
        let h: i64 = (self.y.1 - self.y.0 + (UNITS_PER_PIXEL - 1)) / UNITS_PER_PIXEL;
        (w as usize, h as usize)
    }
}

/// Seeing the same vertex a second time changes nothing.
pub proof fn lemma_update_idempotent(b: BoundingBox, v: Vertex)
    ensures
        b.extended(v).extended(v) == b.extended(v),
{
}

/// The first vertex a fresh box sees becomes both its minimum and its
/// maximum on every axis.
pub proof fn lemma_first_vertex_sets_both_ends(v: Vertex)
    ensures
        BoundingBox::empty().extended(v) == (BoundingBox {
            x: (v.x, v.x),
            y: (v.y, v.y),
            z: (v.z, v.z),
        }),
{
}

/// The box around a list holds every vertex of the list, and once the list
/// is not empty its minimum does not exceed its maximum on any axis.
pub proof fn lemma_box_encloses(vs: Seq<Vertex>, i: int)
    requires
        0 <= i < vs.len(),
    ensures
        BoundingBox::of(vs).encloses(vs[i]),
        BoundingBox::of(vs).ordered(),
    decreases vs.len(),
{
    if i < vs.len() - 1 {
        lemma_box_encloses(vs.drop_last(), i);
    }
}

/// Every end of the box around a non-empty list is a coordinate of one of
/// its vertices: the box is as small as it can be.
pub proof fn lemma_box_tight(vs: Seq<Vertex>)
    requires
        vs.len() > 0,
    ensures
        exists|i: int| 0 <= i < vs.len() && (#[trigger] vs[i]).x == BoundingBox::of(vs).x.0,
        exists|i: int| 0 <= i < vs.len() && (#[trigger] vs[i]).x == BoundingBox::of(vs).x.1,
        exists|i: int| 0 <= i < vs.len() && (#[trigger] vs[i]).y == BoundingBox::of(vs).y.0,
        exists|i: int| 0 <= i < vs.len() && (#[trigger] vs[i]).y == BoundingBox::of(vs).y.1,
        exists|i: int| 0 <= i < vs.len() && (#[trigger] vs[i]).z == BoundingBox::of(vs).z.0,
        exists|i: int| 0 <= i < vs.len() && (#[trigger] vs[i]).z == BoundingBox::of(vs).z.1,
    decreases vs.len(),
{
    let last = vs.len() - 1;
    let b = BoundingBox::of(vs);
    if vs.len() == 1 {
        assert(BoundingBox::of(vs.drop_last()) == BoundingBox::empty());
        assert(vs[0].x == b.x.0 && vs[0].x == b.x.1);
        assert(vs[0].y == b.y.0 && vs[0].y == b.y.1);
        assert(vs[0].z == b.z.0 && vs[0].z == b.z.1);
    } else {
        let rest = vs.drop_last();
        let r = BoundingBox::of(rest);
        lemma_box_tight(rest);
        let x0 = choose|i: int| 0 <= i < rest.len() && (#[trigger] rest[i]).x == r.x.0;
        let x1 = choose|i: int| 0 <= i < rest.len() && (#[trigger] rest[i]).x == r.x.1;
        let y0 = choose|i: int| 0 <= i < rest.len() && (#[trigger] rest[i]).y == r.y.0;
        let y1 = choose|i: int| 0 <= i < rest.len() && (#[trigger] rest[i]).y == r.y.1;
        let z0 = choose|i: int| 0 <= i < rest.len() && (#[trigger] rest[i]).z == r.z.0;
        let z1 = choose|i: int| 0 <= i < rest.len() && (#[trigger] rest[i]).z == r.z.1;
        assert(vs[x0] == rest[x0] && vs[x1] == rest[x1]);
        assert(vs[y0] == rest[y0] && vs[y1] == rest[y1]);
        assert(vs[z0] == rest[z0] && vs[z1] == rest[z1]);
        assert(vs[if b.x.0 == r.x.0 { x0 } else { last }].x == b.x.0);
        assert(vs[if b.x.1 == r.x.1 { x1 } else { last }].x == b.x.1);
        assert(vs[if b.y.0 == r.y.0 { y0 } else { last }].y == b.y.0);
        assert(vs[if b.y.1 == r.y.1 { y1 } else { last }].y == b.y.1);
        assert(vs[if b.z.0 == r.z.0 { z0 } else { last }].z == b.z.0);
        assert(vs[if b.z.1 == r.z.1 { z1 } else { last }].z == b.z.1);
    }
}

} // verus!
