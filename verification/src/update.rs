//! The per-tick packing pass.
//!
//! Once per rendering tick, after external transforms are final, the caller
//! queries every member's current world transform and bounding box and hands
//! them in, one input per member, in each group's member order. The pass
//! walks every group, culls each member against the camera frustum (unless
//! culling is off), packs the transforms of the visible members into the
//! leading slots of the group's staging buffer — skipped members leave no
//! gap — and reports the visible count and a full-buffer upload per group.
//!
//! With no camera and no design-preview override the whole tick is skipped:
//! no buffer is touched and no command is returned.

use vstd::prelude::*;

use crate::frustum::Frustum;
use crate::layout::Rgba;
use crate::layout::TransformBits;
use crate::layout::slot_words;
use crate::layout::spec_stride;
use crate::layout::stride;
use crate::layout::packed_color;
use crate::registry::BatchGroup;
use crate::registry::Registry;
use crate::registry::RendererCommand;
use crate::registry::group_mut;

verus! {

/// The per-tick state of one member, queried from its external object:
/// its current world transform as raw cells, its world-space bounding box
/// in cull coordinates, and its current color.
#[derive(Clone, Copy, PartialEq, Eq, Structural, Debug)]
pub struct MemberInput {
    pub transform: TransformBits,
    pub world_box: crate::frustum::Aabb,
    pub color: Rgba,
}

/// Whether one member is packed this tick: always when culling is off or
/// there is no frustum, otherwise exactly when its box is visible.
pub open spec fn member_visible(inp: MemberInput, camera: Option<Frustum>, cull: bool) -> bool {
    !cull || match camera {
        Some(f) => f.spec_box_visible(inp.world_box),
        None => true,
    }
}

/// Indices of the visible members among the first `k` inputs, ascending.
pub open spec fn vis_prefix(
    states: Seq<MemberInput>,
    camera: Option<Frustum>,
    cull: bool,
    k: int,
) -> Seq<int>
    decreases k,
{
    if k <= 0 {
        Seq::empty()
    } else {
        let prev = vis_prefix(states, camera, cull, k - 1);
        if member_visible(states[k - 1], camera, cull) {
            prev.push(k - 1)
        } else {
            prev
        }
    }
}

/// How many members of a group are packed this tick.
pub open spec fn vis_count(states: Seq<MemberInput>, camera: Option<Frustum>, cull: bool) -> int {
    vis_prefix(states, camera, cull, states.len() as int).len() as int
}

/// The packed count never exceeds the member count; with culling inactive
/// every member is packed, and every listed index is a member index in
/// ascending order.
pub proof fn lemma_vis_prefix_bounds(
    states: Seq<MemberInput>,
    camera: Option<Frustum>,
    cull: bool,
    k: int,
)
    requires
        0 <= k <= states.len(),
    ensures
        vis_prefix(states, camera, cull, k).len() <= k,
        !cull ==> vis_prefix(states, camera, cull, k).len() == k,
        camera is None ==> vis_prefix(states, camera, cull, k).len() == k,
        forall|q: int|
            0 <= q < vis_prefix(states, camera, cull, k).len() ==> 0 <= #[trigger] vis_prefix(
                states,
                camera,
                cull,
                k,
            )[q] < k,
        forall|q: int|
            0 < q < vis_prefix(states, camera, cull, k).len() ==> vis_prefix(
                states,
                camera,
                cull,
                k,
            )[q - 1] < #[trigger] vis_prefix(states, camera, cull, k)[q],
    decreases k,
{
    if k > 0 {
        lemma_vis_prefix_bounds(states, camera, cull, k - 1);
    }
}

/// The packed count of a culling pass is at most the member count, and
/// equals it exactly when culling is off or no frustum is present.
pub proof fn lemma_vis_count_bounds(states: Seq<MemberInput>, camera: Option<Frustum>, cull: bool)
    ensures
        0 <= vis_count(states, camera, cull) <= states.len(),
        !cull ==> vis_count(states, camera, cull) == states.len(),
        camera is None ==> vis_count(states, camera, cull) == states.len(),
{
    lemma_vis_prefix_bounds(states, camera, cull, states.len() as int);
}

/// How one pass leaves a group: membership, key and capacity untouched,
/// the visible members' slots packed to the front in member order, every
/// further slot exactly as it was.
pub open spec fn packed_group_ok(
    g0: BatchGroup,
    g1: BatchGroup,
    states: Seq<MemberInput>,
    camera: Option<Frustum>,
    cull: bool,
) -> bool {
    let vis = vis_prefix(states, camera, cull, states.len() as int);
    &&& g1.key == g0.key
    &&& g1.members@ == g0.members@
    &&& g1.capacity == g0.capacity
    &&& g1.data@.len() == g0.data@.len()
    &&& forall|q: int|
        0 <= q < vis.len() ==> #[trigger] g1.slot(q) == slot_words(
            states[vis[q]].transform,
            states[vis[q]].color,
            g0.key.colored,
        )
    &&& forall|s: int| vis.len() <= s < g0.slots() ==> #[trigger] g1.slot(s) == g0.slot(s)
}

/// The two renderer commands one group's pass ends with.
pub open spec fn group_cmds(key: crate::registry::GroupKey, packed: int) -> Seq<RendererCommand> {
    seq![
        RendererCommand::SetVisibleCount { key, count: packed as usize },
        RendererCommand::Upload { key },
    ]
}

/// The renderer commands of a whole pass over the first `k` groups.
pub open spec fn tick_cmds(
    groups: Seq<BatchGroup>,
    states: Seq<Vec<MemberInput>>,
    camera: Option<Frustum>,
    cull: bool,
    k: int,
) -> Seq<RendererCommand>
    decreases k,
{
    if k <= 0 {
        Seq::empty()
    } else {
        tick_cmds(groups, states, camera, cull, k - 1) + group_cmds(
            groups[k - 1].key,
            vis_count(states[k - 1]@, camera, cull),
        )
    }
}

/// A slot index `q` other than `p` reads the same cells after an update
/// that only touched slot `p`.
proof fn lemma_slot_stable(d0: Seq<u32>, d1: Seq<u32>, st: int, p: int, q: int)
    requires
        st > 0,
        d0.len() == d1.len(),
        0 <= p,
        0 <= q,
        q != p,
        (q + 1) * st <= d0.len(),
        forall|i: int| 0 <= i < d0.len() && !(p * st <= i < (p + 1) * st) ==> d1[i] == d0[i],
    ensures
        d1.subrange(q * st, (q + 1) * st) == d0.subrange(q * st, (q + 1) * st),
{
    if q < p {
        assert((q + 1) * st <= p * st && 0 <= q * st && q * st <= (q + 1) * st)
            by (nonlinear_arith)
            requires
                q + 1 <= p,
                0 <= q,
                st > 0,
        ;
    } else {
        assert(q * st >= (p + 1) * st && q * st <= (q + 1) * st) by (nonlinear_arith)
            requires
                q >= p + 1,
                0 <= q,
                st > 0,
        ;
    }
    assert(d1.subrange(q * st, (q + 1) * st) =~= d0.subrange(q * st, (q + 1) * st));
}

/// Writes one member's cells into slot `p` of a staging buffer.
fn write_slot(data: &mut Vec<u32>, colored: bool, p: usize, inp: &MemberInput)
    requires
        (p + 1) * spec_stride(colored) <= old(data)@.len(),
    ensures
        final(data)@.len() == old(data)@.len(),
        final(data)@.subrange(
            p * spec_stride(colored),
            (p + 1) * spec_stride(colored),
        ) == slot_words(inp.transform, inp.color, colored),
        forall|i: int|
            0 <= i < old(data)@.len() && !(p * spec_stride(colored) <= i < (p + 1) * spec_stride(
                colored,
            )) ==> final(data)@[i] == old(data)@[i],
{
    let st = stride(colored);
    let dl = data.len();
    proof {
        assert(dl == data@.len());
        assert((p as int) * (st as int) + st as int == ((p as int) + 1) * (st as int))
            by (nonlinear_arith);
        assert((p as int) * (st as int) >= 0) by (nonlinear_arith)
            requires
                p >= 0,
                st as int >= 0,
        ;
    }
    let base = p * st;
    let t = &inp.transform;
    data[base] = t.col_x.x;
    data[base + 1] = t.col_y.x;
    data[base + 2] = t.col_z.x;
    data[base + 3] = t.origin.x;
    data[base + 4] = t.col_x.y;
    data[base + 5] = t.col_y.y;
    data[base + 6] = t.col_z.y;
    data[base + 7] = t.origin.y;
    data[base + 8] = t.col_x.z;
    data[base + 9] = t.col_y.z;
    data[base + 10] = t.col_z.z;
    data[base + 11] = t.origin.z;
    if colored {
        data[base + 12] = packed_color(&inp.color);
    }
    proof {
        assert(data@.subrange(
            p * spec_stride(colored),
            (p + 1) * spec_stride(colored),
        ) =~= slot_words(inp.transform, inp.color, colored));
    }
}

/// One group's culling-and-packing pass: packs every visible member's
/// transform (and color, in a colored group) into the leading slots, in
/// member order, and returns how many slots are visible.
fn pack_group(
    g: &mut BatchGroup,
    states: &Vec<MemberInput>,
    camera: &Option<Frustum>,
    cull: bool,
) -> (packed: usize)
    requires
        old(g).wf(),
        states@.len() == old(g).members@.len(),
        forall|k: int| 0 <= k < states@.len() ==> (#[trigger] states@[k]).world_box.wf(),
        match *camera {
            Some(f) => f.wf(),
            None => true,
        },
    ensures
        final(g).wf(),
        packed_group_ok(*old(g), *final(g), states@, *camera, cull),
        packed == vis_count(states@, *camera, cull),
{
    let colored = g.key.colored;
    let n = states.len();
    let mut p: usize = 0;
    let mut k: usize = 0;
    proof {
        lemma_vis_prefix_bounds(states@, *camera, cull, 0);
    }
    while k < n
        invariant
            0 <= k <= n,
            n == states@.len(),
            n == old(g).members@.len(),
            old(g).wf(),
            g.key == old(g).key,
            g.members@ == old(g).members@,
            g.capacity == old(g).capacity,
            g.data@.len() == old(g).data@.len(),
            colored == g.key.colored,
            forall|k2: int| 0 <= k2 < states@.len() ==> (#[trigger] states@[k2]).world_box.wf(),
            match *camera {
                Some(f) => f.wf(),
                None => true,
            },
            p == vis_prefix(states@, *camera, cull, k as int).len(),
            forall|q: int|
                0 <= q < p ==> #[trigger] g.data@.subrange(
                    q * spec_stride(colored),
                    (q + 1) * spec_stride(colored),
                ) == slot_words(
                    states@[vis_prefix(states@, *camera, cull, k as int)[q]].transform,
                    states@[vis_prefix(states@, *camera, cull, k as int)[q]].color,
                    colored,
                ),
            forall|s: int|
                p <= s < old(g).slots() ==> #[trigger] g.data@.subrange(
                    s * spec_stride(colored),
                    (s + 1) * spec_stride(colored),
                ) == old(g).slot(s),
        decreases n - k,
    {
        proof {
            lemma_vis_prefix_bounds(states@, *camera, cull, k as int);
            lemma_vis_prefix_bounds(states@, *camera, cull, k as int + 1);
        }
        let visible: bool = if cull {
            match camera {
                Some(f) => f.box_visible(&states[k].world_box),
                None => true,
            }
        } else {
            true
        };
        if visible {
            proof {
                let cap = old(g).capacity as int;
                assert(p < old(g).members@.len());
                assert(((p as int) + 1) * spec_stride(colored) <= cap * spec_stride(colored))
                    by (nonlinear_arith)
                    requires
                        (p as int) + 1 <= cap,
                        spec_stride(colored) > 0,
                ;
            }
            let ghost d0 = g.data@;
            write_slot(&mut g.data, colored, p, &states[k]);
            proof {
                let st = spec_stride(colored);
                let vis1 = vis_prefix(states@, *camera, cull, k as int + 1);
                assert(vis1 == vis_prefix(states@, *camera, cull, k as int).push(k as int));
                let cap = old(g).capacity as int;
                assert forall|q: int|
                    0 <= q < p + 1 implies #[trigger] g.data@.subrange(q * st, (q + 1) * st)
                        == slot_words(
                        states@[vis1[q]].transform,
                        states@[vis1[q]].color,
                        colored,
                    ) by {
                    if q < p {
                        assert(vis1[q] == vis_prefix(states@, *camera, cull, k as int)[q]);
                        assert(((q + 1)) * st <= cap * st) by (nonlinear_arith)
                            requires
                                q + 1 <= cap,
                                st > 0,
                        ;
                        assert(d0.subrange(q * st, (q + 1) * st) == slot_words(
                            states@[vis1[q]].transform,
                            states@[vis1[q]].color,
                            colored,
                        ));
                        lemma_slot_stable(d0, g.data@, st, p as int, q);
                    } else {
                        assert(q == p as int);
                        assert(vis1[q] == k as int);
                    }
                }
                assert forall|s: int|
                    p + 1 <= s < old(g).slots() implies #[trigger] g.data@.subrange(
                        s * st,
                        (s + 1) * st,
                    ) == old(g).slot(s) by {
                    assert(((s + 1)) * st <= cap * st) by (nonlinear_arith)
                        requires
                            s + 1 <= cap,
                            st > 0,
                    ;
                    assert(d0.subrange(s * st, (s + 1) * st) == old(g).slot(s));
                    lemma_slot_stable(d0, g.data@, st, p as int, s);
                }
            }
            p = p + 1;
        } else {
            proof {
                assert(vis_prefix(states@, *camera, cull, k as int + 1) == vis_prefix(
                    states@,
                    *camera,
                    cull,
                    k as int,
                ));
            }
        }
        k = k + 1;
    }
    proof {
        let st = spec_stride(colored);
        let vis = vis_prefix(states@, *camera, cull, states@.len() as int);
        assert forall|q: int| 0 <= q < vis.len() implies #[trigger] g.slot(q) == slot_words(
            states@[vis[q]].transform,
            states@[vis[q]].color,
            colored,
        ) by {
            assert(g.data@.subrange(q * st, (q + 1) * st) == slot_words(
                states@[vis[q]].transform,
                states@[vis[q]].color,
                colored,
            ));
        }
        assert forall|s: int| vis.len() <= s < old(g).slots() implies #[trigger] g.slot(s) == old(
            g,
        ).slot(s) by {
            assert(g.data@.subrange(s * st, (s + 1) * st) == old(g).slot(s));
        }
    }
    p
}

impl Registry {
    /// One full frame update: decides whether the tick proceeds, then runs
    /// the culling-and-packing pass over every group. `camera` is the
    /// active camera's frustum, or `None` when no camera is available;
    /// `preview` signals a design/edit-preview environment, which forces
    /// culling off instead of skipping the tick. `states` holds one input
    /// per member, per group, in the registry's group and member order.
    ///
    /// With no camera and no preview the tick is skipped whole: no buffer
    /// is touched and no command is produced.
    pub fn frame_update(
        &mut self,
        camera: &Option<Frustum>,
        preview: bool,
        states: &Vec<Vec<MemberInput>>,
    ) -> (cmds: Vec<RendererCommand>)
        requires
            old(self).wf(),
            states@.len() == old(self).groups@.len(),
            forall|i: int|
                0 <= i < states@.len() ==> (#[trigger] states@[i])@.len() == old(
                    self,
                ).groups@[i].members@.len(),
            forall|i: int, k: int|
                0 <= i < states@.len() && 0 <= k < states@[i]@.len() ==> (
                #[trigger] states@[i]@[k]).world_box.wf(),
            match *camera {
                Some(f) => f.wf(),
                None => true,
            },
        ensures
            final(self).wf(),
            final(self).id_counter == old(self).id_counter,
            final(self).culling_enabled == old(self).culling_enabled,
            final(self).spec_live() == old(self).spec_live(),
            final(self).groups@.len() == old(self).groups@.len(),
            camera is None && !preview ==> *final(self) == *old(self) && cmds@ == Seq::<
                RendererCommand,
            >::empty(),
            !(camera is None && !preview) ==> ({
                let cull = old(self).culling_enabled;
                &&& forall|i: int|
                    0 <= i < old(self).groups@.len() ==> packed_group_ok(
                        old(self).groups@[i],
                        #[trigger] final(self).groups@[i],
                        states@[i]@,
                        *camera,
                        cull,
                    )
                &&& forall|i: int|
                    0 <= i < old(self).groups@.len() ==> #[trigger] vis_count(
                        states@[i]@,
                        *camera,
                        cull,
                    ) <= states@[i]@.len()
                &&& (!cull || (*camera) is None) ==> forall|i: int|
                    0 <= i < old(self).groups@.len() ==> #[trigger] vis_count(
                        states@[i]@,
                        *camera,
                        cull,
                    ) == states@[i]@.len()
                &&& cmds@ == tick_cmds(
                    old(self).groups@,
                    states@,
                    *camera,
                    cull,
                    old(self).groups@.len() as int,
                )
            }),
    {
        let mut cmds: Vec<RendererCommand> = Vec::new();
        if camera.is_none() && !preview {
            proof {
                assert(cmds@ =~= Seq::<RendererCommand>::empty());
            }
            return cmds;
        }
        let cull = self.culling_enabled;
        let n = self.groups.len();
        let ghost s0 = *old(self);
        let mut i: usize = 0;
        while i < n
            invariant
                0 <= i <= n,
                n == self.groups@.len(),
                n == s0.groups@.len(),
                n == states@.len(),
                cull == s0.culling_enabled,
                self.id_counter == s0.id_counter,
                self.culling_enabled == s0.culling_enabled,
                s0.wf(),
                forall|j: int|
                    0 <= j < states@.len() ==> (#[trigger] states@[j])@.len()
                        == s0.groups@[j].members@.len(),
                forall|j: int, k: int|
                    0 <= j < states@.len() && 0 <= k < states@[j]@.len() ==> (
                    #[trigger] states@[j]@[k]).world_box.wf(),
                match *camera {
                    Some(f) => f.wf(),
                    None => true,
                },
                forall|j: int| i <= j < n ==> #[trigger] self.groups@[j] == s0.groups@[j],
                forall|j: int| 0 <= j < n ==> (#[trigger] self.groups@[j]).wf(),
                forall|j: int|
                    0 <= j < i ==> packed_group_ok(
                        s0.groups@[j],
                        #[trigger] self.groups@[j],
                        states@[j]@,
                        *camera,
                        cull,
                    ),
                cmds@ == tick_cmds(s0.groups@, states@, *camera, cull, i as int),
            decreases n - i,
        {
            proof {
                assert(self.groups@[i as int] == s0.groups@[i as int]);
                assert(s0.groups@[i as int].wf());
            }
            let g = group_mut(&mut self.groups, i);
            let gkey = g.key;
            let packed = pack_group(g, &states[i], camera, cull);
            cmds.push(RendererCommand::SetVisibleCount { key: gkey, count: packed });
            cmds.push(RendererCommand::Upload { key: gkey });
            proof {
                assert forall|j: int| 0 <= j < n implies (#[trigger] self.groups@[j]).wf() by {
                }
                assert(tick_cmds(s0.groups@, states@, *camera, cull, i as int + 1) == tick_cmds(
                    s0.groups@,
                    states@,
                    *camera,
                    cull,
                    i as int,
                ) + group_cmds(s0.groups@[i as int].key, vis_count(states@[i as int]@, *camera, cull)));
                assert(cmds@ =~= tick_cmds(s0.groups@, states@, *camera, cull, i as int + 1));
            }
            i = i + 1;
        }
        proof {
            assert forall|p: (crate::registry::GroupKey, u64)|
                self.spec_live().contains(p) == s0.spec_live().contains(p) by {
                if self.is_live(p.0, p.1) {
                    let i2 = choose|i2: int|
                        0 <= i2 < self.groups@.len() && (#[trigger] self.groups@[i2]).key == p.0
                            && self.groups@[i2].has_id(p.1);
                    assert(s0.groups@[i2].key == p.0);
                    assert(s0.groups@[i2].members@ == self.groups@[i2].members@);
                    assert(s0.is_live(p.0, p.1));
                }
                if s0.is_live(p.0, p.1) {
                    let i2 = choose|i2: int|
                        0 <= i2 < s0.groups@.len() && (#[trigger] s0.groups@[i2]).key == p.0
                            && s0.groups@[i2].has_id(p.1);
                    assert(self.groups@[i2].key == p.0);
                    assert(self.groups@[i2].members@ == s0.groups@[i2].members@);
                    assert(self.is_live(p.0, p.1));
                }
            }
            assert(self.spec_live() =~= s0.spec_live());
            assert forall|i2: int| 0 <= i2 < s0.groups@.len() implies #[trigger] vis_count(
                states@[i2]@,
                *camera,
                cull,
            ) <= states@[i2]@.len() && ((!cull || (*camera) is None) ==> vis_count(
                states@[i2]@,
                *camera,
                cull,
            ) == states@[i2]@.len()) by {
                lemma_vis_count_bounds(states@[i2]@, *camera, cull);
            }
        }
        cmds
    }
}

} // verus!
