use mesh_batcher::layout::ALLOC_STEP;
use mesh_batcher::layout::ONE_BITS;
use mesh_batcher::registry::GroupKey;
use mesh_batcher::registry::Registry;
use mesh_batcher::registry::RendererCommand;

fn key(world: u64, mesh: u64, colored: bool) -> GroupKey {
    GroupKey { world, mesh, colored }
}

fn count_reallocs(cmds: &[RendererCommand]) -> usize {
    cmds.iter()
        .filter(|c| matches!(c, RendererCommand::Reallocate { .. }))
        .count()
}

#[test]
fn first_registration_creates_group() {
    let mut reg = Registry::new();
    let k = key(1, 7, false);
    let (id, cmds) = reg.register(k, 100);
    assert_eq!(id, 0);
    assert_eq!(
        cmds,
        vec![
            RendererCommand::CreateGroup { key: k, slots: ALLOC_STEP },
            RendererCommand::Reallocate { key: k, slots: ALLOC_STEP },
            RendererCommand::Upload { key: k },
            RendererCommand::SetVisibleCount { key: k, count: 1 },
        ]
    );
    assert!(reg.contains_group(k));
    assert_eq!(reg.member_count(k), 1);
    assert_eq!(reg.capacity_slots(k), ALLOC_STEP);
}

#[test]
fn second_registration_only_reports_count() {
    let mut reg = Registry::new();
    let k = key(1, 7, false);
    reg.register(k, 100);
    let (id, cmds) = reg.register(k, 101);
    assert_eq!(id, 1);
    assert_eq!(cmds, vec![RendererCommand::SetVisibleCount { key: k, count: 2 }]);
    assert_eq!(reg.capacity_slots(k), ALLOC_STEP);
}

#[test]
fn scenario_two_members_unregister_first() {
    // Register X and Y on one uncolored mesh, then unregister X: the
    // member list becomes [Y], capacity is unchanged and id 0 is never
    // reissued.
    let mut reg = Registry::new();
    let k = key(1, 7, false);
    let (idx, _) = reg.register(k, 100);
    let (idy, _) = reg.register(k, 101);
    assert_eq!(idx, 0);
    assert_eq!(idy, 1);
    let cap_before = reg.capacity_slots(k);
    let cmds = reg.unregister(k, idx);
    assert_eq!(cmds, vec![RendererCommand::SetVisibleCount { key: k, count: 1 }]);
    assert_eq!(reg.member_count(k), 1);
    assert_eq!(reg.find_member(k, idy), Some(0));
    assert_eq!(reg.find_member(k, idx), None);
    assert_eq!(reg.capacity_slots(k), cap_before);
    let (next, _) = reg.register(k, 102);
    assert_eq!(next, 2);
}

#[test]
fn scenario_three_hundred_members_grow_twice() {
    // 300 members with a 256-slot chunk: exactly two growth events, and
    // the final capacity is 512, not 300.
    let mut reg = Registry::new();
    let k = key(1, 7, false);
    let mut growths: usize = 0;
    for h in 0..300u64 {
        let (_, cmds) = reg.register(k, h);
        growths += count_reallocs(&cmds);
    }
    assert_eq!(growths, 2);
    assert_eq!(reg.member_count(k), 300);
    assert_eq!(reg.capacity_slots(k), 512);
    // the slots added by the second growth hold identity transforms
    let data = reg.staging(k);
    assert_eq!(data.len(), 512 * 12);
    for slot in 300..512 {
        let base = slot * 12;
        for off in 0..12 {
            let expected = if off == 0 || off == 5 || off == 10 { ONE_BITS } else { 0 };
            assert_eq!(data[base + off], expected);
        }
    }
}

#[test]
fn capacity_is_chunk_multiple_and_covers_members() {
    let mut reg = Registry::new();
    let k = key(3, 9, true);
    for h in 0..257u64 {
        reg.register(k, h);
    }
    let cap = reg.capacity_slots(k);
    assert_eq!(cap % ALLOC_STEP, 0);
    assert!(cap >= reg.member_count(k));
    assert_eq!(cap, 512);
}

#[test]
fn unregister_last_member_frees_group() {
    let mut reg = Registry::new();
    let k = key(1, 7, false);
    let (id, _) = reg.register(k, 100);
    let cmds = reg.unregister(k, id);
    assert_eq!(cmds, vec![RendererCommand::FreeGroup { key: k }]);
    assert!(!reg.contains_group(k));
    assert_eq!(reg.group_count(), 0);
}

#[test]
fn scenario_color_toggle_moves_member() {
    // Toggling color mode is unregister-then-register in the other group:
    // the uncolored group's list no longer finds the member, and the
    // colored group holds it under a strictly larger, newly issued id.
    let mut reg = Registry::new();
    let k_plain = key(1, 7, false);
    let k_color = key(1, 7, true);
    let (id0, _) = reg.register(k_plain, 100);
    reg.unregister(k_plain, id0);
    let (id1, _) = reg.register(k_color, 100);
    assert!(id1 > id0);
    assert!(!reg.contains_group(k_plain));
    assert!(reg.contains_group(k_color));
    assert_eq!(reg.find_member(k_color, id1), Some(0));
    assert_eq!(reg.find_member(k_color, id0), None);
    assert_eq!(reg.find_member(k_plain, id0), None);
}

#[test]
fn ids_increase_across_groups() {
    let mut reg = Registry::new();
    let ka = key(1, 7, false);
    let kb = key(2, 8, true);
    let (a, _) = reg.register(ka, 1);
    let (b, _) = reg.register(kb, 2);
    let (c, _) = reg.register(ka, 3);
    let (d, _) = reg.register(kb, 4);
    assert_eq!((a, b, c, d), (0, 1, 2, 3));
}

#[test]
fn colored_and_uncolored_groups_are_distinct() {
    let mut reg = Registry::new();
    let k_plain = key(1, 7, false);
    let k_color = key(1, 7, true);
    reg.register(k_plain, 100);
    reg.register(k_color, 100);
    assert_eq!(reg.group_count(), 2);
    assert_eq!(reg.member_count(k_plain), 1);
    assert_eq!(reg.member_count(k_color), 1);
}

#[test]
fn fresh_slots_hold_identity_transform() {
    // Immediately after growth, every slot past the packed members holds
    // an identity transform: diagonal one, everything else zero.
    let mut reg = Registry::new();
    let k = key(1, 7, false);
    reg.register(k, 100);
    let data = reg.staging(k);
    assert_eq!(data.len(), ALLOC_STEP * 12);
    for slot in 0..ALLOC_STEP {
        let base = slot * 12;
        for off in 0..12 {
            let expected = if off == 0 || off == 5 || off == 10 { ONE_BITS } else { 0 };
            assert_eq!(data[base + off], expected);
        }
    }
}

#[test]
fn fresh_colored_slots_hold_zero_color() {
    let mut reg = Registry::new();
    let k = key(1, 7, true);
    reg.register(k, 100);
    let data = reg.staging(k);
    assert_eq!(data.len(), ALLOC_STEP * 13);
    for slot in 0..ALLOC_STEP {
        let base = slot * 13;
        assert_eq!(data[base], ONE_BITS);
        assert_eq!(data[base + 5], ONE_BITS);
        assert_eq!(data[base + 10], ONE_BITS);
        assert_eq!(data[base + 12], 0);
    }
}

#[test]
fn member_handles_follow_id_order() {
    let mut reg = Registry::new();
    let k = key(1, 7, false);
    reg.register(k, 30);
    reg.register(k, 10);
    reg.register(k, 20);
    assert_eq!(reg.group_count(), 1);
    assert_eq!(reg.group_key_at(0), k);
    assert_eq!(reg.member_handles(0), vec![30, 10, 20]);
}

#[test]
fn culling_toggle_round_trip() {
    let mut reg = Registry::new();
    assert!(reg.is_culling_enabled());
    reg.set_culling_enabled(false);
    assert!(!reg.is_culling_enabled());
    reg.set_culling_enabled(true);
    assert!(reg.is_culling_enabled());
}
