use mesh_batcher::frustum::Aabb;
use mesh_batcher::frustum::Frustum;
use mesh_batcher::frustum::Plane;
use mesh_batcher::frustum::Vec3I;
use mesh_batcher::layout::ONE_BITS;
use mesh_batcher::layout::Rgba;
use mesh_batcher::layout::TransformBits;
use mesh_batcher::layout::Vec3Bits;
use mesh_batcher::layout::packed_color;
use mesh_batcher::layout::stride;
use mesh_batcher::layout::transform_to_words;

fn v(x: i64, y: i64, z: i64) -> Vec3I {
    Vec3I { x, y, z }
}

fn plane(n: Vec3I, dist: i64) -> Plane {
    Plane { normal: n, dist }
}

fn frustum_of(first: Plane) -> Frustum {
    let mut planes = vec![first];
    for _ in 0..5 {
        planes.push(plane(v(0, 0, 0), 0));
    }
    Frustum { planes }
}

#[test]
fn strides_differ_by_one_color_cell() {
    assert_eq!(stride(false), 12);
    assert_eq!(stride(true), 13);
}

#[test]
fn one_bits_is_the_single_precision_one() {
    assert_eq!(f32::from_bits(ONE_BITS), 1.0f32);
}

#[test]
fn color_packs_little_endian() {
    // Red lands in the least significant byte, alpha in the most: the
    // packed cell reads the same as the four bytes in little-endian order.
    let c = Rgba { r: 1, g: 2, b: 3, a: 4 };
    assert_eq!(packed_color(&c), 0x04030201);
    assert_eq!(packed_color(&c), u32::from_le_bytes([1, 2, 3, 4]));
    let opaque_white = Rgba { r: 255, g: 255, b: 255, a: 255 };
    assert_eq!(packed_color(&opaque_white), 0xFFFF_FFFF);
    let black = Rgba { r: 0, g: 0, b: 0, a: 0 };
    assert_eq!(packed_color(&black), 0);
}

#[test]
fn transform_rows_interleave_columns_and_translation() {
    // Row-major 3x4 layout: each row holds the per-axis components of the
    // three basis columns followed by the translation.
    let t = TransformBits {
        col_x: Vec3Bits { x: 1, y: 2, z: 3 },
        col_y: Vec3Bits { x: 4, y: 5, z: 6 },
        col_z: Vec3Bits { x: 7, y: 8, z: 9 },
        origin: Vec3Bits { x: 10, y: 11, z: 12 },
    };
    assert_eq!(transform_to_words(&t), vec![1, 4, 7, 10, 2, 5, 8, 11, 3, 6, 9, 12]);
}

#[test]
fn box_fully_outside_one_plane_is_invisible() {
    // Plane x >= 5: a unit box at the origin lies entirely on the
    // negative side.
    let f = frustum_of(plane(v(1, 0, 0), -5));
    let b = Aabb { center: v(0, 0, 0), extent: v(1, 1, 1) };
    assert!(!f.box_visible(&b));
}

#[test]
fn box_crossing_a_plane_is_visible() {
    // Plane x >= 5: a box reaching from x = 4 to x = 6 pokes through.
    let f = frustum_of(plane(v(1, 0, 0), -5));
    let b = Aabb { center: v(5, 0, 0), extent: v(1, 1, 1) };
    assert!(f.box_visible(&b));
}

#[test]
fn box_inside_all_planes_is_visible() {
    let f = frustum_of(plane(v(1, 0, 0), 0));
    let b = Aabb { center: v(100, 0, 0), extent: v(1, 1, 1) };
    assert!(f.box_visible(&b));
}

#[test]
fn extent_reaches_along_negative_normal() {
    // Plane -x >= -5 (x <= 5): a box centered at x = 6 with extent 2
    // still reaches below 5, so it stays visible; with extent 0 it lies
    // wholly past the plane and is culled.
    let f = frustum_of(plane(v(-1, 0, 0), 5));
    let wide = Aabb { center: v(6, 0, 0), extent: v(2, 0, 0) };
    let point = Aabb { center: v(6, 0, 0), extent: v(0, 0, 0) };
    assert!(f.box_visible(&wide));
    assert!(!f.box_visible(&point));
}

#[test]
fn touching_a_plane_counts_as_visible() {
    let f = frustum_of(plane(v(1, 0, 0), 0));
    let b = Aabb { center: v(-1, 0, 0), extent: v(1, 0, 0) };
    assert!(f.box_visible(&b));
}
