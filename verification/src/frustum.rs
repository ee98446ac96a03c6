//! Six-plane frustum and the conservative box-visibility test.
//!
//! Coordinates are plain signed integers in a unit of the caller's choice
//! (the caller converts camera planes and world-space boxes to that unit).
//! A box is given by its center and non-negative half-extents; a plane by
//! an inward-pointing normal and a signed offset. The box is invisible if
//! and only if it lies entirely in the negative half-space of at least one
//! of the six planes: a conservative separating-axis test against the box
//! extents, never reporting a visible box as invisible.

use vstd::prelude::*;

verus! {

/// Largest magnitude a cull coordinate, normal component or plane offset
/// may have; keeps every product and sum of the plane test inside `i128`.
pub const CULL_MAX: i64 = 0x1000_0000_0000_0000;

/// A three-component integer vector.
#[derive(Clone, Copy, PartialEq, Eq, Structural, Debug)]
pub struct Vec3I {
    pub x: i64,
    pub y: i64,
    pub z: i64,
}

/// An axis-aligned box: center and half-extent per axis.
#[derive(Clone, Copy, PartialEq, Eq, Structural, Debug)]
pub struct Aabb {
    pub center: Vec3I,
    pub extent: Vec3I,
}

/// One frustum plane: inward normal and signed offset. A point `p` is on
/// the visible side when `normal . p + dist >= 0`.
#[derive(Clone, Copy, PartialEq, Eq, Structural, Debug)]
pub struct Plane {
    pub normal: Vec3I,
    pub dist: i64,
}

/// A camera frustum as six world-space planes.
#[derive(Debug)]
pub struct Frustum {
    pub planes: Vec<Plane>,
}

/// A product of two bounded factors is bounded by the square of the bound.
proof fn lemma_mul_bound(a: int, b: int, m: int)
    by (nonlinear_arith)
    requires
        -m <= a <= m,
        -m <= b <= m,
        0 <= m,
    ensures
        -(m * m) <= a * b <= m * m,
{
}

/// Magnitude of an integer.
pub open spec fn abs1(x: int) -> int {
    if x < 0 {
        -x
    } else {
        x
    }
}

/// Dot product of two integer vectors.
pub open spec fn dot(a: Vec3I, b: Vec3I) -> int {
    a.x * b.x + a.y * b.y + a.z * b.z
}

/// Dot product of the componentwise magnitudes of `n` with `e`: the reach
/// of a box of half-extents `e` along the direction of `n`.
pub open spec fn abs_dot(n: Vec3I, e: Vec3I) -> int {
    abs1(n.x as int) * e.x + abs1(n.y as int) * e.y + abs1(n.z as int) * e.z
}

/// All components within the cull bound.
pub open spec fn vec_bounded(v: Vec3I) -> bool {
    -CULL_MAX <= v.x <= CULL_MAX && -CULL_MAX <= v.y <= CULL_MAX && -CULL_MAX <= v.z <= CULL_MAX
}

impl Aabb {
    /// A box is well formed when its coordinates are bounded and its
    /// half-extents are non-negative.
    pub open spec fn wf(self) -> bool {
        &&& vec_bounded(self.center)
        &&& vec_bounded(self.extent)
        &&& self.extent.x >= 0
        &&& self.extent.y >= 0
        &&& self.extent.z >= 0
    }
}

impl Plane {
    pub open spec fn wf(self) -> bool {
        vec_bounded(self.normal) && -CULL_MAX <= self.dist <= CULL_MAX
    }

    /// The box lies entirely in the negative half-space of this plane:
    /// even the box corner reaching farthest toward the plane's positive
    /// side stays below it.
    pub open spec fn box_outside(self, b: Aabb) -> bool {
        dot(self.normal, b.center) + abs_dot(self.normal, b.extent) + self.dist < 0
    }
}

impl Frustum {
    pub open spec fn wf(self) -> bool {
        self.planes@.len() == 6 && forall|i: int| 0 <= i < 6 ==> #[trigger] self.planes@[i].wf()
    }

    /// A box is visible unless some plane has it entirely outside.
    pub open spec fn spec_box_visible(self, b: Aabb) -> bool {
        forall|i: int| 0 <= i < 6 ==> !(#[trigger] self.planes@[i].box_outside(b))
    }

    /// Decides visibility of a box against all six planes.
    pub fn box_visible(&self, b: &Aabb) -> (r: bool)
        requires
            self.wf(),
            b.wf(),
        ensures
            r == self.spec_box_visible(*b),
    {
        let mut i: usize = 0;
        while i < 6
            invariant
                0 <= i <= 6,
                self.wf(),
                b.wf(),
                forall|j: int| 0 <= j < i ==> !(#[trigger] self.planes@[j].box_outside(*b)),
            decreases 6 - i,
        {
            let p = self.planes[i];
            proof {
                assert(self.planes@[i as int].wf());
            }
            let nx = p.normal.x as i128;
            let ny = p.normal.y as i128;
            let nz = p.normal.z as i128;
            let ax: i128 = if nx < 0 {
                -nx
            } else {
                nx
            };
            let ay: i128 = if ny < 0 {
                -ny
            } else {
                ny
            };
            let az: i128 = if nz < 0 {
                -nz
            } else {
                nz
            };
            let cx = b.center.x as i128;
            let cy = b.center.y as i128;
            let cz = b.center.z as i128;
            let ex = b.extent.x as i128;
            let ey = b.extent.y as i128;
            let ez = b.extent.z as i128;
            proof {
                let m = CULL_MAX as int;
                lemma_mul_bound(nx as int, cx as int, m);
                lemma_mul_bound(ny as int, cy as int, m);
                lemma_mul_bound(nz as int, cz as int, m);
                lemma_mul_bound(ax as int, ex as int, m);
                lemma_mul_bound(ay as int, ey as int, m);
                lemma_mul_bound(az as int, ez as int, m);
            }
            let reach = nx * cx + ny * cy + nz * cz + ax * ex + ay * ey + az * ez + (p.dist
                as i128);
            if reach < 0 {
                assert(self.planes@[i as int].box_outside(*b));
                return false;
            }
            i = i + 1;
        }
        true
    }
}

} // verus!
