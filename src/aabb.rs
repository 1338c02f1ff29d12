use vstd::prelude::*;

verus! {

/// A point or offset on the integer grid. Coordinates are fixed-point world
/// units; the scale is chosen by the caller.
#[derive(Debug, Clone, Copy, PartialEq, Eq, Structural)]
pub struct Vec3 {
    pub x: i32,
    pub y: i32,
    pub z: i32,
}

impl Vec3 {
    pub fn new(x: i32, y: i32, z: i32) -> (r: Vec3)
        ensures
            r == (Vec3 { x, y, z }),
    {
        Vec3 { x, y, z }
    }
}

/// Open interval overlap on one axis: touching ends do not overlap.
pub open spec fn overlaps_on_axis(amin: int, amax: int, bmin: int, bmax: int) -> bool {
    amin < bmax && bmin < amax
}

pub open spec fn min_int(a: int, b: int) -> int {
    if a <= b { a } else { b }
}

pub open spec fn max_int(a: int, b: int) -> int {
    if a >= b { a } else { b }
}

/// Axis-aligned bounding box given by its lowest and highest corners.
#[derive(Debug, Clone, Copy, PartialEq, Eq, Structural)]
pub struct AABB {
    pub min: Vec3,
    pub max: Vec3,
}

impl AABB {
    /// Whether the interiors of the two boxes meet (touching boxes do not).
    pub open spec fn overlaps(self, o: AABB) -> bool {
        &&& overlaps_on_axis(self.min.x as int, self.max.x as int, o.min.x as int, o.max.x as int)
        &&& overlaps_on_axis(self.min.y as int, self.max.y as int, o.min.y as int, o.max.y as int)
        &&& overlaps_on_axis(self.min.z as int, self.max.z as int, o.min.z as int, o.max.z as int)
    }

    /// Whether `o` lies within `self` (faces may coincide).
    pub open spec fn encloses(self, o: AABB) -> bool {
        &&& self.min.x <= o.min.x && o.max.x <= self.max.x
        &&& self.min.y <= o.min.y && o.max.y <= self.max.y
        &&& self.min.z <= o.min.z && o.max.z <= self.max.z
    }

    /// Whether point `p` lies within the box, boundary included.
    pub open spec fn contains_point(self, p: Vec3) -> bool {
        &&& self.min.x <= p.x <= self.max.x
        &&& self.min.y <= p.y <= self.max.y
        &&& self.min.z <= p.z <= self.max.z
    }

    /// The smallest box enclosing both boxes.
    pub open spec fn merged(self, o: AABB) -> AABB {
        AABB {
            min: Vec3 {
                x: min_int(self.min.x as int, o.min.x as int) as i32,
                y: min_int(self.min.y as int, o.min.y as int) as i32,
                z: min_int(self.min.z as int, o.min.z as int) as i32,
            },
            max: Vec3 {
                x: max_int(self.max.x as int, o.max.x as int) as i32,
                y: max_int(self.max.y as int, o.max.y as int) as i32,
                z: max_int(self.max.z as int, o.max.z as int) as i32,
            },
        }
    }

    /// The smallest box enclosing the box and point `p`.
    pub open spec fn expanded(self, p: Vec3) -> AABB {
        self.merged(AABB { min: p, max: p })
    }

    /// Product of the box's extents along the three axes.
    pub open spec fn spec_volume(self) -> int {
        (self.max.x - self.min.x) * (self.max.y - self.min.y) * (self.max.z - self.min.z)
    }

    /// Box with the given center and half-extents.
    pub fn new(center: Vec3, radii: Vec3) -> (r: AABB)
        requires
            i32::MIN <= center.x - radii.x <= i32::MAX,
            i32::MIN <= center.x + radii.x <= i32::MAX,
            i32::MIN <= center.y - radii.y <= i32::MAX,
            i32::MIN <= center.y + radii.y <= i32::MAX,
            i32::MIN <= center.z - radii.z <= i32::MAX,
            i32::MIN <= center.z + radii.z <= i32::MAX,
        ensures
            r.min == (Vec3 {
                x: (center.x - radii.x) as i32,
                y: (center.y - radii.y) as i32,
                z: (center.z - radii.z) as i32,
            }),
            r.max == (Vec3 {
                x: (center.x + radii.x) as i32,
                y: (center.y + radii.y) as i32,
                z: (center.z + radii.z) as i32,
            }),
    {
        AABB {
            min: Vec3 { x: center.x - radii.x, y: center.y - radii.y, z: center.z - radii.z },
            max: Vec3 { x: center.x + radii.x, y: center.y + radii.y, z: center.z + radii.z },
        }
    }

    /// Box with the given lowest and highest corners.
    pub fn new_min_max(min: Vec3, max: Vec3) -> (r: AABB)
        ensures
            r == (AABB { min, max }),
    {
        AABB { min, max }
    }

    /// Whether the two boxes overlap; boxes that only touch do not.
    pub fn intersect(&self, other: &AABB) -> (r: bool)
        ensures
            r == self.overlaps(*other),
    {
        !(self.min.x >= other.max.x || other.min.x >= self.max.x || self.min.y >= other.max.y
            || other.min.y >= self.max.y || self.min.z >= other.max.z || other.min.z
            >= self.max.z)
    }

    /// Grows the box, if needed, so that it contains `p`.
    pub fn expand_mut(&mut self, p: &Vec3)
        ensures
            *final(self) == old(self).expanded(*p),
    {
        if p.x < self.min.x {
            self.min.x = p.x;
        }
        if p.x > self.max.x {
            self.max.x = p.x;
        }
        if p.y < self.min.y {
            self.min.y = p.y;
        }
        if p.y > self.max.y {
            self.max.y = p.y;
        }
        if p.z < self.min.z {
            self.min.z = p.z;
        }
        if p.z > self.max.z {
            self.max.z = p.z;
        }
    }

    /// The box grown, if needed, so that it contains `p`.
    pub fn expand(&self, p: &Vec3) -> (r: AABB)
        ensures
            r == self.expanded(*p),
    {
        let mut ret = *self;
        ret.expand_mut(p);
        ret
    }

    /// The smallest box enclosing both boxes.
    pub fn merge(&self, other: &AABB) -> (r: AABB)
        ensures
            r == self.merged(*other),
    {
        AABB {
            min: Vec3 {
                x: if self.min.x <= other.min.x { self.min.x } else { other.min.x },
                y: if self.min.y <= other.min.y { self.min.y } else { other.min.y },
                z: if self.min.z <= other.min.z { self.min.z } else { other.min.z },
            },
            max: Vec3 {
                x: if self.max.x >= other.max.x { self.max.x } else { other.max.x },
                y: if self.max.y >= other.max.y { self.max.y } else { other.max.y },
                z: if self.max.z >= other.max.z { self.max.z } else { other.max.z },
            },
        }
    }

    /// Product of the extents; a cost measure for comparing boxes.
    pub fn volume(&self) -> (r: i128)
        ensures
            r == self.spec_volume(),
            -0x1_0000_0000_0000_0000_0000_0000 <= r <= 0x1_0000_0000_0000_0000_0000_0000,
    {
        let dx = self.max.x as i64 - self.min.x as i64;
        let dy = self.max.y as i64 - self.min.y as i64;
        let dz = self.max.z as i64 - self.min.z as i64;
        proof {
            lemma_extent_product_bounds(dx as int, dy as int, dz as int);
        }
        let dxy = dx as i128 * dy as i128;
        dxy * dz as i128
    }
}

proof fn lemma_extent_product_bounds(dx: int, dy: int, dz: int)
    requires
        -0x1_0000_0000 <= dx <= 0x1_0000_0000,
        -0x1_0000_0000 <= dy <= 0x1_0000_0000,
        -0x1_0000_0000 <= dz <= 0x1_0000_0000,
    ensures
        -0x1_0000_0000_0000_0000 <= dx * dy <= 0x1_0000_0000_0000_0000,
        -0x1_0000_0000_0000_0000_0000_0000 <= dx * dy * dz <= 0x1_0000_0000_0000_0000_0000_0000,
{
    assert(-0x1_0000_0000_0000_0000 <= dx * dy <= 0x1_0000_0000_0000_0000) by (nonlinear_arith)
        requires
            -0x1_0000_0000 <= dx <= 0x1_0000_0000,
            -0x1_0000_0000 <= dy <= 0x1_0000_0000,
    ;
    let p = dx * dy;
    assert(-0x1_0000_0000_0000_0000_0000_0000 <= p * dz <= 0x1_0000_0000_0000_0000_0000_0000)
        by (nonlinear_arith)
        requires
            -0x1_0000_0000_0000_0000 <= p <= 0x1_0000_0000_0000_0000,
            -0x1_0000_0000 <= dz <= 0x1_0000_0000,
    ;
}

/// Merging a box with itself gives the same box.
pub proof fn lemma_merge_idempotent(a: AABB)
    ensures
        a.merged(a) == a,
{
}

/// The merged box encloses both boxes, and every corner of each lies in it.
pub proof fn lemma_merge_encloses(a: AABB, b: AABB)
    ensures
        a.merged(b).encloses(a),
        a.merged(b).encloses(b),
        forall|p: Vec3| a.contains_point(p) ==> a.merged(b).contains_point(p),
        forall|p: Vec3| b.contains_point(p) ==> a.merged(b).contains_point(p),
{
}

/// Overlap does not depend on the order of the two boxes.
pub proof fn lemma_overlaps_symmetric(a: AABB, b: AABB)
    ensures
        a.overlaps(b) == b.overlaps(a),
{
}

/// A box that encloses another overlaps everything the inner box overlaps.
pub proof fn lemma_enclosing_overlaps(outer: AABB, inner: AABB, c: AABB)
    requires
        outer.encloses(inner),
        inner.overlaps(c),
    ensures
        outer.overlaps(c),
        c.overlaps(outer),
{
}

/// Enclosure is transitive.
pub proof fn lemma_encloses_transitive(a: AABB, b: AABB, c: AABB)
    requires
        a.encloses(b),
        b.encloses(c),
    ensures
        a.encloses(c),
{
}

/// Expanding never shrinks the box, and the result holds the point.
pub proof fn lemma_expand_grows(a: AABB, p: Vec3)
    ensures
        a.expanded(p).encloses(a),
        a.expanded(p).contains_point(p),
{
}

} // verus!
