use mesh_batcher::frustum::Aabb;
use mesh_batcher::frustum::Frustum;
use mesh_batcher::frustum::Plane;
use mesh_batcher::frustum::Vec3I;
use mesh_batcher::layout::ONE_BITS;
use mesh_batcher::layout::Rgba;
use mesh_batcher::layout::TransformBits;
use mesh_batcher::layout::Vec3Bits;
use mesh_batcher::registry::GroupKey;
use mesh_batcher::registry::Registry;
use mesh_batcher::registry::RendererCommand;
use mesh_batcher::update::MemberInput;

fn key(world: u64, mesh: u64, colored: bool) -> GroupKey {
    GroupKey { world, mesh, colored }
}

fn vec3(x: u32, y: u32, z: u32) -> Vec3Bits {
    Vec3Bits { x, y, z }
}

fn transform_at(tag: u32) -> TransformBits {
    TransformBits {
        col_x: vec3(ONE_BITS, 0, 0),
        col_y: vec3(0, ONE_BITS, 0),
        col_z: vec3(0, 0, ONE_BITS),
        origin: vec3(tag, tag + 1, tag + 2),
    }
}

fn box_at(x: i64) -> Aabb {
    Aabb { center: Vec3I { x, y: 0, z: 0 }, extent: Vec3I { x: 1, y: 1, z: 1 } }
}

fn input(tag: u32, x: i64) -> MemberInput {
    MemberInput {
        transform: transform_at(tag),
        world_box: box_at(x),
        color: Rgba { r: 10, g: 20, b: 30, a: 40 },
    }
}

/// Six planes whose first requires x >= 0; the others reject nothing.
fn half_space_frustum() -> Frustum {
    let mut planes = vec![Plane { normal: Vec3I { x: 1, y: 0, z: 0 }, dist: 0 }];
    for _ in 0..5 {
        planes.push(Plane { normal: Vec3I { x: 0, y: 0, z: 0 }, dist: 0 });
    }
    Frustum { planes }
}

#[test]
fn skipped_tick_without_camera_or_preview() {
    // Culling enabled, no camera, no design-preview override: the tick is
    // skipped whole and produces zero renderer calls.
    let mut reg = Registry::new();
    let k = key(1, 7, false);
    reg.register(k, 100);
    let before = reg.staging(k).clone();
    reg.set_culling_enabled(true);
    let states = vec![vec![input(1, -100)]];
    let cmds = reg.frame_update(&None, false, &states);
    assert_eq!(cmds, vec![]);
    assert_eq!(reg.staging(k), &before);
}

#[test]
fn preview_without_camera_packs_everything() {
    // No camera but a design-preview environment: the pass proceeds with
    // culling force-disabled, so every member is packed.
    let mut reg = Registry::new();
    let k = key(1, 7, false);
    reg.register(k, 100);
    reg.register(k, 101);
    reg.set_culling_enabled(true);
    let states = vec![vec![input(1, -100), input(50, -200)]];
    let cmds = reg.frame_update(&None, true, &states);
    assert_eq!(
        cmds,
        vec![
            RendererCommand::SetVisibleCount { key: k, count: 2 },
            RendererCommand::Upload { key: k },
        ]
    );
}

#[test]
fn culling_disabled_packs_all_members() {
    let mut reg = Registry::new();
    let k = key(1, 7, false);
    reg.register(k, 100);
    reg.register(k, 101);
    reg.register(k, 102);
    reg.set_culling_enabled(false);
    let states = vec![vec![input(1, -100), input(50, -200), input(90, 5)]];
    let cmds = reg.frame_update(&Some(half_space_frustum()), false, &states);
    assert_eq!(
        cmds,
        vec![
            RendererCommand::SetVisibleCount { key: k, count: 3 },
            RendererCommand::Upload { key: k },
        ]
    );
}

#[test]
fn culling_pass_compacts_visible_members() {
    // Member 0 sits at x = -100 (culled), member 1 at x = +100 (visible):
    // the packed count is 1 and the visible member's transform lands in
    // slot 0, closing the gap; slot 1 keeps its previous (identity) cells.
    let mut reg = Registry::new();
    let k = key(1, 7, false);
    reg.register(k, 100);
    reg.register(k, 101);
    reg.set_culling_enabled(true);
    let states = vec![vec![input(11, -100), input(77, 100)]];
    let cmds = reg.frame_update(&Some(half_space_frustum()), false, &states);
    assert_eq!(
        cmds,
        vec![
            RendererCommand::SetVisibleCount { key: k, count: 1 },
            RendererCommand::Upload { key: k },
        ]
    );
    let data = reg.staging(k);
    // slot 0: member 1's transform rows
    assert_eq!(&data[0..12], &[ONE_BITS, 0, 0, 77, 0, ONE_BITS, 0, 78, 0, 0, ONE_BITS, 79]);
    // slot 1: untouched identity cells
    assert_eq!(&data[12..24], &[ONE_BITS, 0, 0, 0, 0, ONE_BITS, 0, 0, 0, 0, ONE_BITS, 0]);
}

#[test]
fn visible_count_never_exceeds_member_count() {
    let mut reg = Registry::new();
    let k = key(1, 7, false);
    for h in 0..5u64 {
        reg.register(k, h);
    }
    reg.set_culling_enabled(true);
    let states = vec![vec![
        input(1, 10),
        input(2, -50),
        input(3, 20),
        input(4, -80),
        input(5, 30),
    ]];
    let cmds = reg.frame_update(&Some(half_space_frustum()), false, &states);
    match cmds[0] {
        RendererCommand::SetVisibleCount { key: ck, count } => {
            assert_eq!(ck, k);
            assert_eq!(count, 3);
            assert!(count <= reg.member_count(k));
        }
        _ => panic!("expected a visible-count command first"),
    }
}

#[test]
fn colored_pass_packs_color_cell() {
    let mut reg = Registry::new();
    let k = key(1, 7, true);
    reg.register(k, 100);
    reg.set_culling_enabled(false);
    let mut st = input(5, 0);
    st.color = Rgba { r: 1, g: 2, b: 3, a: 4 };
    let states = vec![vec![st]];
    reg.frame_update(&Some(half_space_frustum()), false, &states);
    let data = reg.staging(k);
    assert_eq!(data[12], 0x04030201);
}

#[test]
fn pass_packs_each_group_separately() {
    let mut reg = Registry::new();
    let ka = key(1, 7, false);
    let kb = key(1, 7, true);
    reg.register(ka, 100);
    reg.register(kb, 101);
    reg.set_culling_enabled(false);
    let states = vec![vec![input(1, 0)], vec![input(2, 0)]];
    let cmds = reg.frame_update(&None, true, &states);
    assert_eq!(
        cmds,
        vec![
            RendererCommand::SetVisibleCount { key: ka, count: 1 },
            RendererCommand::Upload { key: ka },
            RendererCommand::SetVisibleCount { key: kb, count: 1 },
            RendererCommand::Upload { key: kb },
        ]
    );
}
