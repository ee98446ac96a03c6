//! The batch registry: groups keyed by (world, mesh, color-mode), each with
//! a sorted member list and a growable staging buffer.
//!
//! Ids are allocated from one monotonic counter and never reused, so member
//! lists stay sorted by construction and removal is a binary search. A group
//! exists exactly while it has members: it is created lazily on the first
//! registration for its key and torn down when its last member leaves.
//!
//! The registry owns no renderer handles; every renderer effect of an
//! operation is returned as a list of [`RendererCommand`] values which the
//! caller forwards, in order, to the renderer.

use vstd::prelude::*;

use crate::layout::ALLOC_STEP;
use crate::layout::identity_words;
use crate::layout::spec_stride;
use crate::layout::stride;

verus! {

/// Most members one group may hold; keeps every buffer-size computation
/// inside `usize` even on 32-bit machines.
pub const MAX_MEMBERS: usize = 0x0400_0000;

/// The key a batch group is addressed by: rendering world, mesh resource
/// and color mode. Colored and uncolored groups of the same (world, mesh)
/// are distinct groups, their slot strides differ.
#[derive(Clone, Copy, PartialEq, Eq, Structural, Debug, Hash)]
pub struct GroupKey {
    pub world: u64,
    pub mesh: u64,
    pub colored: bool,
}

/// One registered object: its registry-unique id and an opaque non-owning
/// reference to the external scene object it stands for.
#[derive(Clone, Copy, PartialEq, Eq, Structural, Debug)]
pub struct Member {
    pub id: u64,
    pub handle: u64,
}

/// One renderer effect of a registry operation. The caller performs them
/// in list order; buffer contents for `Upload` are read from the group's
/// staging buffer after the operation returns.
#[derive(Clone, Copy, PartialEq, Eq, Structural, Debug)]
pub enum RendererCommand {
    /// Create the renderer-side buffer of `slots` identity-initialized
    /// slots for a new group and bind a render instance to it.
    CreateGroup { key: GroupKey, slots: usize },
    /// Resize the group's renderer-side buffer to `slots` slots.
    Reallocate { key: GroupKey, slots: usize },
    /// Upload the group's full staging buffer.
    Upload { key: GroupKey },
    /// Tell the renderer how many leading slots are visible.
    SetVisibleCount { key: GroupKey, count: usize },
    /// Release the group's renderer buffer and instance handles.
    FreeGroup { key: GroupKey },
}

/// One batch group: its key, the flat staging buffer and the member list,
/// sorted ascending by id.
pub struct BatchGroup {
    pub key: GroupKey,
    pub data: Vec<u32>,
    pub members: Vec<Member>,
    pub capacity: usize,
}

/// Strictly ascending member ids.
pub open spec fn sorted_by_id(s: Seq<Member>) -> bool {
    forall|i: int, j: int| 0 <= i < j < s.len() ==> s[i].id < s[j].id
}

impl BatchGroup {
    /// Cells per slot of this group.
    pub open spec fn stride(self) -> int {
        spec_stride(self.key.colored)
    }

    /// Slot capacity: how many member slots the staging buffer holds.
    pub open spec fn slots(self) -> int {
        self.capacity as int
    }

    /// The cells of slot `s`.
    pub open spec fn slot(self, s: int) -> Seq<u32> {
        self.data@.subrange(s * self.stride(), (s + 1) * self.stride())
    }

    /// Some member has this id.
    pub open spec fn has_id(self, id: u64) -> bool {
        exists|j: int| 0 <= j < self.members@.len() && #[trigger] self.members@[j].id == id
    }

    /// Index of the member with this id (meaningful only when present;
    /// unique while the list is sorted).
    pub open spec fn id_index(self, id: u64) -> int {
        choose|j: int| 0 <= j < self.members@.len() && #[trigger] self.members@[j].id == id
    }

    /// Group invariant: non-empty sorted member list, and a staging buffer
    /// of whole slots, a multiple of the growth chunk in size and never
    /// smaller than the member list.
    pub open spec fn wf(self) -> bool {
        &&& 0 < self.members@.len() <= MAX_MEMBERS
        &&& sorted_by_id(self.members@)
        &&& self.data@.len() == self.slots() * self.stride()
        &&& self.slots() % (ALLOC_STEP as int) == 0
        &&& self.slots() >= self.members@.len()
        &&& self.capacity <= MAX_MEMBERS + ALLOC_STEP
    }
}

/// The staging cells of `n` freshly initialized slots.
pub open spec fn identity_tail(colored: bool, n: int) -> Seq<u32>
    decreases n,
{
    if n <= 0 {
        Seq::empty()
    } else {
        identity_tail(colored, n - 1) + identity_words(colored)
    }
}

proof fn lemma_identity_tail_len(colored: bool, n: int)
    requires
        n >= 0,
    ensures
        identity_tail(colored, n).len() == n * spec_stride(colored),
    decreases n,
{
    if n > 0 {
        lemma_identity_tail_len(colored, n - 1);
        assert(identity_words(colored).len() == spec_stride(colored));
        assert(identity_tail(colored, n).len() == identity_tail(colored, n - 1).len()
            + identity_words(colored).len());
        if colored {
            assert(n * spec_stride(colored) == n * 13);
            assert((n - 1) * 13 + 13 == n * 13);
        } else {
            assert(n * spec_stride(colored) == n * 12);
            assert((n - 1) * 12 + 12 == n * 12);
        }
    }
}

proof fn lemma_identity_tail_slot(colored: bool, n: int, s: int)
    requires
        0 <= s < n,
    ensures
        identity_tail(colored, n).subrange(
            s * spec_stride(colored),
            (s + 1) * spec_stride(colored),
        ) =~= identity_words(colored),
    decreases n,
{
    let st = spec_stride(colored);
    lemma_identity_tail_len(colored, n);
    lemma_identity_tail_len(colored, n - 1);
    assert(identity_tail(colored, n) == identity_tail(colored, n - 1) + identity_words(colored));
    if s < n - 1 {
        lemma_identity_tail_slot(colored, n - 1, s);
        assert((s + 1) * st <= (n - 1) * st) by (nonlinear_arith)
            requires
                s + 1 <= n - 1,
                st > 0,
        ;
        assert(s * st >= 0) by (nonlinear_arith)
            requires
                s >= 0,
                st > 0,
        ;
        assert forall|k: int| 0 <= k < (n - 1) * st implies identity_tail(colored, n)[k]
            == identity_tail(colored, n - 1)[k] by {
            assert(identity_tail(colored, n)[k] == (identity_tail(colored, n - 1) + identity_words(
                colored,
            ))[k]);
        }
        assert(identity_tail(colored, n).subrange(s * st, (s + 1) * st) =~= identity_tail(
            colored,
            n - 1,
        ).subrange(s * st, (s + 1) * st));
    } else {
        assert(s == n - 1);
        assert(s * st == (n - 1) * st);
        assert((s + 1) * st == n * st);
    }
}

/// Appends the cells of one identity slot to a staging buffer.
fn push_identity_slot(data: &mut Vec<u32>, colored: bool)
    ensures
        final(data)@ == old(data)@ + identity_words(colored),
{
    data.push(crate::layout::ONE_BITS);
    data.push(0);
    data.push(0);
    data.push(0);
    data.push(0);
    data.push(crate::layout::ONE_BITS);
    data.push(0);
    data.push(0);
    data.push(0);
    data.push(0);
    data.push(crate::layout::ONE_BITS);
    data.push(0);
    if colored {
        data.push(0);
    }
    proof {
        assert(data@ =~= old(data)@ + identity_words(colored));
    }
}

impl BatchGroup {
    /// Appends a freshly allocated member, growing the staging buffer by
    /// whole chunks until it has a slot for every member; newly added
    /// slots are identity-initialized. Returns the renderer effects.
    ///
    /// Works on a group that is not yet well formed in one way: an empty
    /// member list with an empty buffer, as a just-created group has.
    fn push_member(&mut self, m: Member) -> (cmds: Vec<RendererCommand>)
        requires
            sorted_by_id(old(self).members@),
            old(self).members@.len() < MAX_MEMBERS,
            old(self).data@.len() == old(self).capacity * old(self).stride(),
            (old(self).capacity as int) % (ALLOC_STEP as int) == 0,
            old(self).capacity <= MAX_MEMBERS + ALLOC_STEP,
            old(self).capacity >= old(self).members@.len(),
            forall|j: int|
                0 <= j < old(self).members@.len() ==> (#[trigger] old(self).members@[j]).id < m.id,
        ensures
            final(self).wf(),
            final(self).key == old(self).key,
            final(self).members@ == old(self).members@.push(m),
            final(self).capacity >= old(self).capacity,
            old(self).members@.len() + 1 <= old(self).capacity ==> {
                &&& final(self).capacity == old(self).capacity
                &&& final(self).data@ == old(self).data@
                &&& cmds@ == seq![
                    RendererCommand::SetVisibleCount {
                        key: old(self).key,
                        count: (old(self).members@.len() + 1) as usize,
                    },
                ]
            },
            old(self).members@.len() + 1 > old(self).capacity ==> {
                &&& final(self).capacity >= old(self).members@.len() + 1
                &&& final(self).capacity - ALLOC_STEP < old(self).members@.len() + 1
                &&& forall|s: int| 0 <= s < old(self).capacity ==> final(self).slot(s) == old(
                    self,
                ).slot(s)
                &&& forall|s: int|
                    old(self).capacity <= s < final(self).capacity ==> final(self).slot(s)
                        == identity_words(old(self).key.colored)
                &&& cmds@ == seq![
                    RendererCommand::Reallocate {
                        key: old(self).key,
                        slots: final(self).capacity as usize,
                    },
                    RendererCommand::Upload { key: old(self).key },
                    RendererCommand::SetVisibleCount {
                        key: old(self).key,
                        count: (old(self).members@.len() + 1) as usize,
                    },
                ]
            },
    {
        let colored = self.key.colored;
        let st = stride(colored);
        self.members.push(m);
        let n = self.members.len();
        proof {
            assert forall|i: int, j: int| 0 <= i < j < self.members@.len() implies self.members@[i].id
                < self.members@[j].id by {
                if j < self.members@.len() - 1 {
                    assert(old(self).members@[i].id < old(self).members@[j].id);
                }
            }
        }
        let mut cmds: Vec<RendererCommand> = Vec::new();
        if n > self.capacity {
            let mut new_cap = self.capacity;
            while new_cap < n
                invariant
                    self.capacity <= new_cap,
                    (new_cap as int) % (ALLOC_STEP as int) == 0,
                    new_cap < n + ALLOC_STEP,
                    n <= MAX_MEMBERS,
                decreases n + ALLOC_STEP - new_cap,
            {
                new_cap = new_cap + ALLOC_STEP;
            }
            let add_slots = new_cap - self.capacity;
            let ghost base = self.data@;
            let mut s: usize = 0;
            while s < add_slots
                invariant
                    0 <= s <= add_slots,
                    self.data@ == base + identity_tail(colored, s as int),
                    self.key == old(self).key,
                    self.key.colored == colored,
                    self.members@ == old(self).members@.push(m),
                    self.capacity == old(self).capacity,
                decreases add_slots - s,
            {
                push_identity_slot(&mut self.data, colored);
                proof {
                    assert(base + identity_tail(colored, s as int) + identity_words(colored) =~= base
                        + identity_tail(colored, s as int + 1));
                }
                s = s + 1;
            }
            proof {
                let stg = spec_stride(colored);
                let cap0 = old(self).capacity as int;
                let added = add_slots as int;
                lemma_identity_tail_len(colored, added);
                assert(self.data@.len() == cap0 * stg + added * stg);
                assert(cap0 * stg + added * stg == new_cap * stg) by (nonlinear_arith)
                    requires
                        cap0 + added == new_cap,
                ;
                // preserved slots
                assert forall|sl: int| 0 <= sl < cap0 implies BatchGroup {
                    capacity: new_cap,
                    ..*self
                }.slot(sl) == old(self).slot(sl) by {
                    assert((sl + 1) * stg <= cap0 * stg && 0 <= sl * stg && sl * stg <= (sl + 1)
                        * stg) by (nonlinear_arith)
                        requires
                            0 <= sl,
                            sl + 1 <= cap0,
                            stg > 0,
                    ;
                    assert(self.data@.subrange(sl * stg, (sl + 1) * stg) =~= base.subrange(
                        sl * stg,
                        (sl + 1) * stg,
                    ));
                }
                // fresh slots
                assert forall|sl: int| cap0 <= sl < new_cap implies BatchGroup {
                    capacity: new_cap,
                    ..*self
                }.slot(sl) == identity_words(colored) by {
                    let local = sl - cap0;
                    lemma_identity_tail_slot(colored, added, local);
                    assert(sl * stg == cap0 * stg + local * stg && (sl + 1) * stg == cap0 * stg + (
                    local + 1) * stg && 0 <= local * stg && local * stg <= (local + 1) * stg && (
                    local + 1) * stg <= added * stg) by (nonlinear_arith)
                        requires
                            sl == cap0 + local,
                            0 <= local,
                            local + 1 <= added,
                            stg > 0,
                            cap0 >= 0,
                    ;
                    assert(self.data@.subrange(sl * stg, (sl + 1) * stg) =~= identity_tail(
                        colored,
                        added,
                    ).subrange(local * stg, (local + 1) * stg));
                }
            }
            self.capacity = new_cap;
            cmds.push(RendererCommand::Reallocate { key: self.key, slots: new_cap });
            cmds.push(RendererCommand::Upload { key: self.key });
            cmds.push(RendererCommand::SetVisibleCount { key: self.key, count: n });
            proof {
                assert(cmds@ =~= seq![
                    RendererCommand::Reallocate { key: old(self).key, slots: new_cap },
                    RendererCommand::Upload { key: old(self).key },
                    RendererCommand::SetVisibleCount {
                        key: old(self).key,
                        count: (old(self).members@.len() + 1) as usize,
                    },
                ]);
            }
        } else {
            cmds.push(RendererCommand::SetVisibleCount { key: self.key, count: n });
            proof {
                assert(cmds@ =~= seq![
                    RendererCommand::SetVisibleCount {
                        key: old(self).key,
                        count: (old(self).members@.len() + 1) as usize,
                    },
                ]);
            }
        }
        cmds
    }
}

/// The registry: the id allocator, every live batch group and the global
/// culling toggle.
pub struct Registry {
    pub id_counter: u64,
    pub groups: Vec<BatchGroup>,
    pub culling_enabled: bool,
}

impl Registry {
    /// Registry invariant: every group well formed and non-empty, group
    /// keys pairwise distinct, and every member id below the counter.
    pub open spec fn wf(self) -> bool {
        &&& forall|i: int| 0 <= i < self.groups@.len() ==> (#[trigger] self.groups@[i]).wf()
        &&& forall|i: int, j: int|
            0 <= i < j < self.groups@.len() ==> (#[trigger] self.groups@[i]).key != (
            #[trigger] self.groups@[j]).key
        &&& forall|i: int, k: int|
            0 <= i < self.groups@.len() && 0 <= k < self.groups@[i].members@.len() ==> (
            #[trigger] self.groups@[i].members@[k]).id < self.id_counter
    }

    /// A group for this key exists.
    pub open spec fn has_group(self, key: GroupKey) -> bool {
        exists|i: int| 0 <= i < self.groups@.len() && (#[trigger] self.groups@[i]).key == key
    }

    /// Index of the group for this key (meaningful only when it exists;
    /// unique because keys are distinct).
    pub open spec fn idx_of(self, key: GroupKey) -> int {
        choose|i: int| 0 <= i < self.groups@.len() && (#[trigger] self.groups@[i]).key == key
    }

    /// The group for this key.
    pub open spec fn group_of(self, key: GroupKey) -> BatchGroup {
        self.groups@[self.idx_of(key)]
    }

    /// The pair (key, id) names a currently registered member.
    pub open spec fn is_live(self, key: GroupKey, id: u64) -> bool {
        exists|i: int|
            0 <= i < self.groups@.len() && (#[trigger] self.groups@[i]).key == key
                && self.groups@[i].has_id(id)
    }

    /// The live member set: the reference model of membership.
    pub open spec fn spec_live(self) -> Set<(GroupKey, u64)> {
        Set::new(|p: (GroupKey, u64)| self.is_live(p.0, p.1))
    }

    /// An empty registry with culling enabled.
    pub fn new() -> (r: Registry)
        ensures
            r.wf(),
            r.id_counter == 0,
            r.groups@.len() == 0,
            r.culling_enabled == true,
    {
        Registry { id_counter: 0, groups: Vec::new(), culling_enabled: true }
    }

    /// Sets the global culling toggle; nothing else changes.
    pub fn set_culling_enabled(&mut self, on: bool)
        ensures
            final(self).culling_enabled == on,
            final(self).id_counter == old(self).id_counter,
            final(self).groups == old(self).groups,
    {
        self.culling_enabled = on;
    }

    /// Reads the global culling toggle.
    pub fn is_culling_enabled(&self) -> (r: bool)
        ensures
            r == self.culling_enabled,
    {
        self.culling_enabled
    }

    /// Number of live groups.
    pub fn group_count(&self) -> (r: usize)
        ensures
            r == self.groups@.len(),
    {
        self.groups.len()
    }

    /// Linear scan for the group of a key.
    pub fn find_group(&self, key: GroupKey) -> (r: Option<usize>)
        requires
            self.wf(),
        ensures
            match r {
                Some(i) => self.has_group(key) && i == self.idx_of(key) && i < self.groups@.len()
                    && self.groups@[i as int].key == key,
                None => !self.has_group(key),
            },
    {
        let n = self.groups.len();
        let mut i: usize = 0;
        while i < n
            invariant
                self.wf(),
                n == self.groups@.len(),
                0 <= i <= n,
                forall|j: int| 0 <= j < i ==> (#[trigger] self.groups@[j]).key != key,
            decreases n - i,
        {
            if self.groups[i].key == key {
                proof {
                    assert(self.groups@[i as int].key == key);
                    let w = self.idx_of(key);
                    assert(0 <= w < self.groups@.len() && self.groups@[w].key == key);
                    assert(w == i as int);
                }
                return Some(i);
            }
            i = i + 1;
        }
        None
    }

    /// Member count of the group for a key.
    pub fn member_count(&self, key: GroupKey) -> (r: usize)
        requires
            self.wf(),
            self.has_group(key),
        ensures
            r == self.group_of(key).members@.len(),
    {
        let i = self.find_group(key).unwrap();
        self.groups[i].members.len()
    }

    /// Slot capacity of the group for a key.
    pub fn capacity_slots(&self, key: GroupKey) -> (r: usize)
        requires
            self.wf(),
            self.has_group(key),
        ensures
            r == self.group_of(key).slots(),
    {
        let i = self.find_group(key).unwrap();
        self.groups[i].capacity
    }

    /// The staging buffer of the group for a key, for uploads.
    pub fn staging(&self, key: GroupKey) -> (r: &Vec<u32>)
        requires
            self.wf(),
            self.has_group(key),
        ensures
            r@ == self.group_of(key).data@,
    {
        let i = self.find_group(key).unwrap();
        &self.groups[i].data
    }

    /// Whether a group for this key exists.
    pub fn contains_group(&self, key: GroupKey) -> (r: bool)
        requires
            self.wf(),
        ensures
            r == self.has_group(key),
    {
        self.find_group(key).is_some()
    }

    /// The member handles of one group, in ascending-id order; the caller
    /// queries each handle's current transform before a packing pass.
    pub fn member_handles(&self, index: usize) -> (r: Vec<u64>)
        requires
            index < self.groups@.len(),
        ensures
            r@ == self.groups@[index as int].members@.map_values(|m: Member| m.handle),
    {
        let g = &self.groups[index];
        let n = g.members.len();
        let mut r: Vec<u64> = Vec::new();
        let mut k: usize = 0;
        while k < n
            invariant
                n == g.members@.len(),
                0 <= k <= n,
                r@.len() == k,
                forall|j: int| 0 <= j < k ==> r@[j] == (#[trigger] g.members@[j]).handle,
            decreases n - k,
        {
            r.push(g.members[k].handle);
            k = k + 1;
        }
        proof {
            assert(r@ =~= g.members@.map_values(|m: Member| m.handle));
        }
        r
    }

    /// The key of the group at an index.
    pub fn group_key_at(&self, index: usize) -> (r: GroupKey)
        requires
            index < self.groups@.len(),
        ensures
            r == self.groups@[index as int].key,
    {
        self.groups[index].key
    }

    /// Binary search of a group's member list for an id: `Some` with the
    /// member's index exactly when the id is registered in that group.
    pub fn find_member(&self, key: GroupKey, id: u64) -> (r: Option<usize>)
        requires
            self.wf(),
        ensures
            match r {
                Some(j) => self.has_group(key) && 0 <= j < self.group_of(key).members@.len()
                    && self.group_of(key).members@[j as int].id == id,
                None => !self.is_live(key, id),
            },
    {
        match self.find_group(key) {
            None => None,
            Some(i) => {
                let g = &self.groups[i];
                let r = member_index(&g.members, id);
                proof {
                    if r is None {
                        assert forall|w: int|
                            0 <= w < self.groups@.len() && self.groups@[w].key == key implies !self.groups@[w].has_id(
                            id) by {
                            assert(w == i as int);
                        }
                    }
                }
                r
            },
        }
    }
}

/// Mutable access to one group of the registry's list.
pub(crate) fn group_mut(v: &mut Vec<BatchGroup>, i: usize) -> (g: &mut BatchGroup)
    requires
        i < old(v).len(),
    ensures
        *g == old(v)@[i as int],
        final(v)@ == old(v)@.update(i as int, *final(g)),
{
    &mut v[i]
}

impl Registry {
    /// Registers one external object under a group key: allocates the next
    /// id, finds or lazily creates the group, appends the member and grows
    /// the staging buffer when the group outgrew its slots. Returns the
    /// assigned id, which the caller must retain for unregistration, and
    /// the renderer effects.
    pub fn register(&mut self, key: GroupKey, handle: u64) -> (r: (u64, Vec<RendererCommand>))
        requires
            old(self).wf(),
            old(self).id_counter < u64::MAX,
            old(self).has_group(key) ==> old(self).group_of(key).members@.len() < MAX_MEMBERS,
        ensures
            final(self).wf(),
            r.0 == old(self).id_counter,
            final(self).id_counter == old(self).id_counter + 1,
            final(self).culling_enabled == old(self).culling_enabled,
            final(self).has_group(key),
            forall|k2: GroupKey| !old(self).is_live(k2, r.0),
            final(self).spec_live() == old(self).spec_live().insert((key, r.0)),
            old(self).has_group(key) ==> ({
                let i = old(self).idx_of(key);
                let g0 = old(self).groups@[i];
                let g1 = final(self).groups@[i];
                let n1 = g0.members@.len() + 1;
                &&& final(self).groups@.len() == old(self).groups@.len()
                &&& final(self).idx_of(key) == i
                &&& forall|j: int|
                    0 <= j < old(self).groups@.len() && j != i ==> final(self).groups@[j] == old(
                    self,
                ).groups@[j]
                &&& g1.key == key
                &&& g1.members@ == g0.members@.push(Member { id: r.0, handle })
                &&& g1.capacity >= g0.capacity
                &&& (n1 <= g0.capacity ==> g1.capacity == g0.capacity && g1.data@ == g0.data@
                    && r.1@ == seq![
                    RendererCommand::SetVisibleCount { key, count: n1 as usize },
                ])
                &&& (n1 > g0.capacity ==> {
                    &&& g1.capacity >= n1
                    &&& g1.capacity - ALLOC_STEP < n1
                    &&& forall|s: int| 0 <= s < g0.capacity ==> g1.slot(s) == g0.slot(s)
                    &&& forall|s: int|
                        g0.capacity <= s < g1.capacity ==> g1.slot(s) == identity_words(key.colored)
                    &&& r.1@ == seq![
                        RendererCommand::Reallocate { key, slots: g1.capacity as usize },
                        RendererCommand::Upload { key },
                        RendererCommand::SetVisibleCount { key, count: n1 as usize },
                    ]
                })
            }),
            !old(self).has_group(key) ==> ({
                let g1 = final(self).groups@[old(self).groups@.len() as int];
                &&& final(self).groups@.len() == old(self).groups@.len() + 1
                &&& final(self).idx_of(key) == old(self).groups@.len()
                &&& forall|j: int|
                    0 <= j < old(self).groups@.len() ==> final(self).groups@[j] == old(
                    self,
                ).groups@[j]
                &&& g1.key == key
                &&& g1.members@ == seq![Member { id: r.0, handle }]
                &&& g1.capacity == ALLOC_STEP
                &&& forall|s: int| 0 <= s < ALLOC_STEP ==> g1.slot(s) == identity_words(key.colored)
                &&& r.1@ == seq![
                    RendererCommand::CreateGroup { key, slots: ALLOC_STEP },
                    RendererCommand::Reallocate { key, slots: ALLOC_STEP },
                    RendererCommand::Upload { key },
                    RendererCommand::SetVisibleCount { key, count: 1 },
                ]
            }),
    {
        let id = self.id_counter;
        self.id_counter = id + 1;
        let mem = Member { id, handle };
        let found = self.find_group(key);
        let cmds: Vec<RendererCommand>;
        match found {
            Some(i) => {
                proof {
                    assert(old(self).groups@[i as int].wf());
                }
                let g = group_mut(&mut self.groups, i);
                cmds = g.push_member(mem);
                proof {
                    let i = i as int;
                    let s0 = *old(self);
                    let g0 = s0.groups@[i];
                    let g1 = self.groups@[i];
                    assert(self.groups@ == s0.groups@.update(i, g1));
                    assert forall|j: int| 0 <= j < self.groups@.len() implies (
                    #[trigger] self.groups@[j]).wf() by {
                        if j != i {
                            assert(self.groups@[j] == s0.groups@[j]);
                        }
                    }
                    assert forall|i2: int, k: int|
                        0 <= i2 < self.groups@.len() && 0 <= k
                            < self.groups@[i2].members@.len() implies (
                    #[trigger] self.groups@[i2].members@[k]).id < self.id_counter by {
                        if i2 != i {
                            assert(self.groups@[i2] == s0.groups@[i2]);
                            assert(s0.groups@[i2].members@[k].id < s0.id_counter);
                        } else {
                            if k < g0.members@.len() {
                                assert(g1.members@[k] == g0.members@[k]);
                                assert(s0.groups@[i].members@[k].id < s0.id_counter);
                            } else {
                                assert(g1.members@[k] == mem);
                            }
                        }
                    }
                    assert(self.has_group(key));
                    let w = self.idx_of(key);
                    assert(0 <= w < self.groups@.len() && self.groups@[w].key == key);
                    assert(w == i);
                    lemma_live_after_append(s0, *self, i, key, mem);
                }
            },
            None => {
                let mut g = BatchGroup {
                    key,
                    data: Vec::new(),
                    members: Vec::new(),
                    capacity: 0,
                };
                proof {
                    assert((g.capacity as int) * g.stride() == 0) by (nonlinear_arith)
                        requires
                            g.capacity == 0usize,
                    ;
                }
                let mut gcmds = g.push_member(mem);
                let mut out: Vec<RendererCommand> = Vec::new();
                out.push(RendererCommand::CreateGroup { key, slots: ALLOC_STEP });
                out.append(&mut gcmds);
                cmds = out;
                proof {
                    assert(g.capacity == ALLOC_STEP);
                }
                self.groups.push(g);
                proof {
                    let s0 = *old(self);
                    let n0 = s0.groups@.len() as int;
                    assert forall|j: int| 0 <= j < self.groups@.len() implies (
                    #[trigger] self.groups@[j]).wf() by {
                        if j < n0 {
                            assert(self.groups@[j] == s0.groups@[j]);
                        }
                    }
                    assert forall|i2: int, j2: int|
                        0 <= i2 < j2 < self.groups@.len() implies (
                    #[trigger] self.groups@[i2]).key != (#[trigger] self.groups@[j2]).key by {
                        if j2 == n0 {
                            assert(self.groups@[i2] == s0.groups@[i2]);
                            assert(!s0.has_group(key));
                            assert(s0.groups@[i2].key != key);
                        }
                    }
                    assert forall|i2: int, k: int|
                        0 <= i2 < self.groups@.len() && 0 <= k
                            < self.groups@[i2].members@.len() implies (
                    #[trigger] self.groups@[i2].members@[k]).id < self.id_counter by {
                        if i2 < n0 {
                            assert(self.groups@[i2] == s0.groups@[i2]);
                            assert(s0.groups@[i2].members@[k].id < s0.id_counter);
                        } else {
                            assert(self.groups@[i2].members@[k] == mem);
                        }
                    }
                    assert(self.groups@[n0].key == key);
                    assert(self.has_group(key));
                    let w = self.idx_of(key);
                    assert(0 <= w < self.groups@.len() && self.groups@[w].key == key);
                    assert(w == n0);
                    assert(cmds@ =~= seq![
                        RendererCommand::CreateGroup { key, slots: ALLOC_STEP },
                        RendererCommand::Reallocate { key, slots: ALLOC_STEP },
                        RendererCommand::Upload { key },
                        RendererCommand::SetVisibleCount { key, count: 1 },
                    ]);
                    lemma_live_after_new_group(s0, *self, key, mem);
                }
            },
        }
        proof {
            assert forall|k2: GroupKey| !old(self).is_live(k2, id) by {
                if old(self).is_live(k2, id) {
                    let i2 = choose|i2: int|
                        0 <= i2 < old(self).groups@.len() && (#[trigger] old(
                            self,
                        ).groups@[i2]).key == k2 && old(self).groups@[i2].has_id(id);
                    let j2 = choose|j2: int|
                        0 <= j2 < old(self).groups@[i2].members@.len() && #[trigger] old(
                            self,
                        ).groups@[i2].members@[j2].id == id;
                    assert(old(self).groups@[i2].members@[j2].id < old(self).id_counter);
                }
            }
        }
        (id, cmds)
    }

    /// Unregisters a member by key and id: binary-searches the group's
    /// member list, removes the member, and tears the group down when it
    /// became empty. The member count is reported to the renderer after
    /// removal unless the group was just deleted. Callers must pass a
    /// registered (key, id) pair; anything else is a caller bug the
    /// surrounding layer has to fail fast on.
    pub fn unregister(&mut self, key: GroupKey, id: u64) -> (cmds: Vec<RendererCommand>)
        requires
            old(self).wf(),
            old(self).is_live(key, id),
        ensures
            final(self).wf(),
            final(self).id_counter == old(self).id_counter,
            final(self).culling_enabled == old(self).culling_enabled,
            final(self).spec_live() == old(self).spec_live().remove((key, id)),
            ({
                let i = old(self).idx_of(key);
                let g0 = old(self).groups@[i];
                let j = g0.id_index(id);
                if g0.members@.len() > 1 {
                    &&& final(self).groups@.len() == old(self).groups@.len()
                    &&& forall|j2: int|
                        0 <= j2 < old(self).groups@.len() && j2 != i ==> final(self).groups@[j2]
                            == old(self).groups@[j2]
                    &&& final(self).has_group(key)
                    &&& final(self).idx_of(key) == i
                    &&& final(self).groups@[i].key == key
                    &&& final(self).groups@[i].members@ == g0.members@.remove(j)
                    &&& final(self).groups@[i].capacity == g0.capacity
                    &&& final(self).groups@[i].data@ == g0.data@
                    &&& cmds@ == seq![
                        RendererCommand::SetVisibleCount {
                            key,
                            count: (g0.members@.len() - 1) as usize,
                        },
                    ]
                } else {
                    &&& final(self).groups@ == old(self).groups@.remove(i)
                    &&& !final(self).has_group(key)
                    &&& cmds@ == seq![RendererCommand::FreeGroup { key }]
                }
            }),
    {
        proof {
            let wi = choose|wi: int|
                0 <= wi < old(self).groups@.len() && (#[trigger] old(self).groups@[wi]).key == key
                    && old(self).groups@[wi].has_id(id);
            assert(old(self).has_group(key));
        }
        let i = self.find_group(key).unwrap();
        let ghost s0 = *old(self);
        let ghost gi = i as int;
        let ghost g0 = s0.groups@[gi];
        let ghost j_spec = g0.id_index(id);
        let n_after: usize;
        let jj: usize;
        proof {
            let wi = choose|wi: int|
                0 <= wi < s0.groups@.len() && (#[trigger] s0.groups@[wi]).key == key
                    && s0.groups@[wi].has_id(id);
            assert(wi == gi);
            assert(g0.has_id(id));
            assert(0 <= j_spec < g0.members@.len() && g0.members@[j_spec].id == id);
        }
        let g = group_mut(&mut self.groups, i);
        let jopt = member_index(&g.members, id);
        proof {
            assert(g.members@[j_spec].id == id);
            assert(jopt is Some);
        }
        jj = jopt.unwrap();
        proof {
            // sorted ids are unique, so the found index is the spec index
            if jj as int != j_spec {
                assert(g0.members@[jj as int].id == g0.members@[j_spec].id);
                assert(false);
            }
        }
        g.members.remove(jj);
        proof {
            assert forall|a: int, b: int|
                0 <= a < b < g.members@.len() implies g.members@[a].id < g.members@[b].id by {
                let oa = if a < jj as int {
                    a
                } else {
                    a + 1
                };
                let ob = if b < jj as int {
                    b
                } else {
                    b + 1
                };
                assert(g.members@[a] == g0.members@[oa]);
                assert(g.members@[b] == g0.members@[ob]);
            }
        }
        n_after = g.members.len();
        if n_after == 0 {
            let ghost mid = *self;
            self.groups.remove(i);
            let mut cmds: Vec<RendererCommand> = Vec::new();
            cmds.push(RendererCommand::FreeGroup { key });
            proof {
                assert(mid.groups@ == s0.groups@.update(gi, mid.groups@[gi]));
                assert(self.groups@ =~= s0.groups@.remove(gi));
                let n1 = self.groups@.len() as int;
                assert forall|w: int| 0 <= w < n1 implies (#[trigger] self.groups@[w]).wf() by {
                    let ow = if w < gi {
                        w
                    } else {
                        w + 1
                    };
                    assert(self.groups@[w] == s0.groups@[ow]);
                }
                assert forall|a: int, b: int| 0 <= a < b < n1 implies (
                #[trigger] self.groups@[a]).key != (#[trigger] self.groups@[b]).key by {
                    let oa = if a < gi {
                        a
                    } else {
                        a + 1
                    };
                    let ob = if b < gi {
                        b
                    } else {
                        b + 1
                    };
                    assert(self.groups@[a] == s0.groups@[oa]);
                    assert(self.groups@[b] == s0.groups@[ob]);
                }
                assert forall|w: int, k: int|
                    0 <= w < n1 && 0 <= k < self.groups@[w].members@.len() implies (
                #[trigger] self.groups@[w].members@[k]).id < self.id_counter by {
                    let ow = if w < gi {
                        w
                    } else {
                        w + 1
                    };
                    assert(self.groups@[w] == s0.groups@[ow]);
                    assert(s0.groups@[ow].members@[k].id < s0.id_counter);
                }
                assert forall|w: int| 0 <= w < n1 implies (#[trigger] self.groups@[w]).key
                    != key by {
                    let ow = if w < gi {
                        w
                    } else {
                        w + 1
                    };
                    assert(self.groups@[w] == s0.groups@[ow]);
                }
                assert(!self.has_group(key));
                assert(j_spec == 0);
                lemma_live_after_drop_group(s0, *self, gi, key);
                assert(cmds@ =~= seq![RendererCommand::FreeGroup { key }]);
            }
            cmds
        } else {
            let mut cmds: Vec<RendererCommand> = Vec::new();
            cmds.push(RendererCommand::SetVisibleCount { key, count: n_after });
            proof {
                let g1 = self.groups@[gi];
                assert(self.groups@ == s0.groups@.update(gi, g1));
                assert(g1.key == g0.key);
                assert(g1.capacity == g0.capacity);
                assert(g1.data@ == g0.data@);
                assert(g1.members@ == g0.members@.remove(jj as int));
                assert forall|w: int| 0 <= w < self.groups@.len() implies (
                #[trigger] self.groups@[w]).wf() by {
                    if w != gi {
                        assert(self.groups@[w] == s0.groups@[w]);
                    }
                }
                assert forall|w: int, k: int|
                    0 <= w < self.groups@.len() && 0 <= k
                        < self.groups@[w].members@.len() implies (
                #[trigger] self.groups@[w].members@[k]).id < self.id_counter by {
                    if w != gi {
                        assert(self.groups@[w] == s0.groups@[w]);
                        assert(s0.groups@[w].members@[k].id < s0.id_counter);
                    } else {
                        let ok = if k < jj as int {
                            k
                        } else {
                            k + 1
                        };
                        assert(g1.members@[k] == g0.members@[ok]);
                        assert(s0.groups@[gi].members@[ok].id < s0.id_counter);
                    }
                }
                assert(self.has_group(key));
                let w = self.idx_of(key);
                assert(0 <= w < self.groups@.len() && self.groups@[w].key == key);
                assert(w == gi);
                lemma_live_after_remove(s0, *self, gi, key, jj as int);
                assert(cmds@ =~= seq![
                    RendererCommand::SetVisibleCount {
                        key,
                        count: (g0.members@.len() - 1) as usize,
                    },
                ]);
            }
            cmds
        }
    }
}

/// Appending a member to the group at index `i` adds exactly its (key, id)
/// pair to the live member set.
proof fn lemma_live_after_append(s0: Registry, s1: Registry, i: int, key: GroupKey, m: Member)
    requires
        0 <= i < s0.groups@.len(),
        s1.groups@.len() == s0.groups@.len(),
        forall|j: int| 0 <= j < s0.groups@.len() && j != i ==> s1.groups@[j] == s0.groups@[j],
        s0.groups@[i].key == key,
        s1.groups@[i].key == key,
        s1.groups@[i].members@ == s0.groups@[i].members@.push(m),
    ensures
        s1.spec_live() == s0.spec_live().insert((key, m.id)),
{
    let len0 = s0.groups@[i].members@.len() as int;
    assert forall|p: (GroupKey, u64)|
        s1.spec_live().contains(p) == s0.spec_live().insert((key, m.id)).contains(p) by {
        if p == (key, m.id) {
            assert(s1.groups@[i].members@[len0] == m);
            assert(s1.groups@[i].has_id(m.id));
            assert(s1.is_live(key, m.id));
        } else {
            if s1.is_live(p.0, p.1) {
                let i2 = choose|i2: int|
                    0 <= i2 < s1.groups@.len() && (#[trigger] s1.groups@[i2]).key == p.0
                        && s1.groups@[i2].has_id(p.1);
                let j2 = choose|j2: int|
                    0 <= j2 < s1.groups@[i2].members@.len() && #[trigger] s1.groups@[i2].members@[j2].id
                        == p.1;
                if i2 == i {
                    if j2 == len0 {
                        assert(s1.groups@[i2].members@[j2] == m);
                        assert(false);
                    } else {
                        assert(s0.groups@[i].members@[j2].id == p.1);
                        assert(s0.groups@[i].has_id(p.1));
                        assert(s0.is_live(p.0, p.1));
                    }
                } else {
                    assert(s1.groups@[i2] == s0.groups@[i2]);
                    assert(s0.is_live(p.0, p.1));
                }
            }
            if s0.is_live(p.0, p.1) {
                let i2 = choose|i2: int|
                    0 <= i2 < s0.groups@.len() && (#[trigger] s0.groups@[i2]).key == p.0
                        && s0.groups@[i2].has_id(p.1);
                let j2 = choose|j2: int|
                    0 <= j2 < s0.groups@[i2].members@.len() && #[trigger] s0.groups@[i2].members@[j2].id
                        == p.1;
                if i2 == i {
                    assert(s1.groups@[i].members@[j2].id == p.1);
                    assert(s1.groups@[i].has_id(p.1));
                } else {
                    assert(s1.groups@[i2] == s0.groups@[i2]);
                    assert(s1.groups@[i2].has_id(p.1));
                }
                assert(s1.is_live(p.0, p.1));
            }
        }
    }
    assert(s1.spec_live() =~= s0.spec_live().insert((key, m.id)));
}

/// Appending a brand-new one-member group adds exactly its (key, id) pair
/// to the live member set.
proof fn lemma_live_after_new_group(s0: Registry, s1: Registry, key: GroupKey, m: Member)
    requires
        s1.groups@.len() == s0.groups@.len() + 1,
        forall|j: int| 0 <= j < s0.groups@.len() ==> s1.groups@[j] == s0.groups@[j],
        s1.groups@[s0.groups@.len() as int].key == key,
        s1.groups@[s0.groups@.len() as int].members@ == seq![m],
    ensures
        s1.spec_live() == s0.spec_live().insert((key, m.id)),
{
    let n0 = s0.groups@.len() as int;
    assert forall|p: (GroupKey, u64)|
        s1.spec_live().contains(p) == s0.spec_live().insert((key, m.id)).contains(p) by {
        if p == (key, m.id) {
            assert(s1.groups@[n0].members@[0] == m);
            assert(s1.groups@[n0].has_id(m.id));
            assert(s1.is_live(key, m.id));
        } else {
            if s1.is_live(p.0, p.1) {
                let i2 = choose|i2: int|
                    0 <= i2 < s1.groups@.len() && (#[trigger] s1.groups@[i2]).key == p.0
                        && s1.groups@[i2].has_id(p.1);
                let j2 = choose|j2: int|
                    0 <= j2 < s1.groups@[i2].members@.len() && #[trigger] s1.groups@[i2].members@[j2].id
                        == p.1;
                if i2 == n0 {
                    assert(s1.groups@[i2].members@[j2] == m);
                    assert(false);
                } else {
                    assert(s1.groups@[i2] == s0.groups@[i2]);
                    assert(s0.is_live(p.0, p.1));
                }
            }
            if s0.is_live(p.0, p.1) {
                let i2 = choose|i2: int|
                    0 <= i2 < s0.groups@.len() && (#[trigger] s0.groups@[i2]).key == p.0
                        && s0.groups@[i2].has_id(p.1);
                assert(s1.groups@[i2] == s0.groups@[i2]);
                assert(s1.is_live(p.0, p.1));
            }
        }
    }
    assert(s1.spec_live() =~= s0.spec_live().insert((key, m.id)));
}

/// Ids are never reused: an id at or above the allocation counter is not
/// live in any group, under any key. Freshly allocated ids equal the
/// counter, so they are new to the registry's whole lifetime.
pub proof fn lemma_fresh_id_not_live(r: Registry, key: GroupKey, id: u64)
    requires
        r.wf(),
        id >= r.id_counter,
    ensures
        !r.spec_live().contains((key, id)),
{
    if r.is_live(key, id) {
        let i2 = choose|i2: int|
            0 <= i2 < r.groups@.len() && (#[trigger] r.groups@[i2]).key == key
                && r.groups@[i2].has_id(id);
        let j2 = choose|j2: int|
            0 <= j2 < r.groups@[i2].members@.len() && #[trigger] r.groups@[i2].members@[j2].id
                == id;
        assert(r.groups@[i2].members@[j2].id < r.id_counter);
    }
}

/// Slot capacity of every group is a whole number of growth chunks and
/// never below the group's member count.
pub proof fn lemma_capacity_invariant(r: Registry, key: GroupKey)
    requires
        r.wf(),
        r.has_group(key),
    ensures
        r.group_of(key).slots() % (ALLOC_STEP as int) == 0,
        r.group_of(key).slots() >= r.group_of(key).members@.len(),
        sorted_by_id(r.group_of(key).members@),
{
    let i = r.idx_of(key);
    assert(r.groups@[i].wf());
}

/// Removing one member of the group at index `i` removes exactly its
/// (key, id) pair from the live member set.
proof fn lemma_live_after_remove(s0: Registry, s1: Registry, i: int, key: GroupKey, j: int)
    requires
        s0.wf(),
        0 <= i < s0.groups@.len(),
        s0.groups@[i].key == key,
        0 <= j < s0.groups@[i].members@.len(),
        s1.groups@.len() == s0.groups@.len(),
        forall|j2: int| 0 <= j2 < s0.groups@.len() && j2 != i ==> s1.groups@[j2] == s0.groups@[j2],
        s1.groups@[i].key == key,
        s1.groups@[i].members@ == s0.groups@[i].members@.remove(j),
    ensures
        s1.spec_live() == s0.spec_live().remove((key, s0.groups@[i].members@[j].id)),
{
    let g0 = s0.groups@[i];
    let id = g0.members@[j].id;
    assert forall|p: (GroupKey, u64)|
        s1.spec_live().contains(p) == s0.spec_live().remove((key, id)).contains(p) by {
        if s1.is_live(p.0, p.1) {
            let i2 = choose|i2: int|
                0 <= i2 < s1.groups@.len() && (#[trigger] s1.groups@[i2]).key == p.0
                    && s1.groups@[i2].has_id(p.1);
            let j2 = choose|j2: int|
                0 <= j2 < s1.groups@[i2].members@.len() && #[trigger] s1.groups@[i2].members@[j2].id
                    == p.1;
            if i2 == i {
                let oj = if j2 < j {
                    j2
                } else {
                    j2 + 1
                };
                assert(s1.groups@[i].members@[j2] == g0.members@[oj]);
                assert(g0.has_id(p.1));
                assert(s0.is_live(p.0, p.1));
                if p.1 == id {
                    assert(g0.members@[oj].id == g0.members@[j].id);
                    assert(oj != j);
                    assert(false);
                }
            } else {
                assert(s1.groups@[i2] == s0.groups@[i2]);
                assert(s0.is_live(p.0, p.1));
                if p == (key, id) {
                    assert(s0.groups@[i2].key == s0.groups@[i].key);
                    assert(false);
                }
            }
        }
        if s0.is_live(p.0, p.1) && p != (key, id) {
            let i2 = choose|i2: int|
                0 <= i2 < s0.groups@.len() && (#[trigger] s0.groups@[i2]).key == p.0
                    && s0.groups@[i2].has_id(p.1);
            let j2 = choose|j2: int|
                0 <= j2 < s0.groups@[i2].members@.len() && #[trigger] s0.groups@[i2].members@[j2].id
                    == p.1;
            if i2 == i {
                assert(p.0 == key);
                assert(j2 != j);
                let nj = if j2 < j {
                    j2
                } else {
                    j2 - 1
                };
                assert(s1.groups@[i].members@[nj] == g0.members@[j2]);
                assert(s1.groups@[i].has_id(p.1));
                assert(s1.is_live(p.0, p.1));
            } else {
                assert(s1.groups@[i2] == s0.groups@[i2]);
                assert(s1.groups@[i2].has_id(p.1));
                assert(s1.is_live(p.0, p.1));
            }
        }
    }
    assert(s1.spec_live() =~= s0.spec_live().remove((key, id)));
}

/// Removing a whole one-member group removes exactly its (key, id) pair
/// from the live member set.
proof fn lemma_live_after_drop_group(s0: Registry, s1: Registry, i: int, key: GroupKey)
    requires
        s0.wf(),
        0 <= i < s0.groups@.len(),
        s0.groups@[i].key == key,
        s0.groups@[i].members@.len() == 1,
        s1.groups@ == s0.groups@.remove(i),
    ensures
        s1.spec_live() == s0.spec_live().remove((key, s0.groups@[i].members@[0].id)),
{
    let id = s0.groups@[i].members@[0].id;
    assert forall|p: (GroupKey, u64)|
        s1.spec_live().contains(p) == s0.spec_live().remove((key, id)).contains(p) by {
        if s1.is_live(p.0, p.1) {
            let i2 = choose|i2: int|
                0 <= i2 < s1.groups@.len() && (#[trigger] s1.groups@[i2]).key == p.0
                    && s1.groups@[i2].has_id(p.1);
            let oi = if i2 < i {
                i2
            } else {
                i2 + 1
            };
            assert(s1.groups@[i2] == s0.groups@[oi]);
            assert(oi != i);
            assert(s0.is_live(p.0, p.1));
            if p == (key, id) {
                assert(s0.groups@[oi].key == s0.groups@[i].key);
                assert(false);
            }
        }
        if s0.is_live(p.0, p.1) && p != (key, id) {
            let i2 = choose|i2: int|
                0 <= i2 < s0.groups@.len() && (#[trigger] s0.groups@[i2]).key == p.0
                    && s0.groups@[i2].has_id(p.1);
            if i2 == i {
                let j2 = choose|j2: int|
                    0 <= j2 < s0.groups@[i2].members@.len() && #[trigger] s0.groups@[i2].members@[j2].id
                        == p.1;
                assert(j2 == 0);
                assert(p == (key, id));
                assert(false);
            } else {
                let ni = if i2 < i {
                    i2
                } else {
                    i2 - 1
                };
                assert(s1.groups@[ni] == s0.groups@[i2]);
                assert(s1.is_live(p.0, p.1));
            }
        }
    }
    assert(s1.spec_live() =~= s0.spec_live().remove((key, id)));
}

/// Binary search in a sorted member list.
fn member_index(members: &Vec<Member>, id: u64) -> (r: Option<usize>)
    requires
        sorted_by_id(members@),
    ensures
        match r {
            Some(j) => 0 <= j < members@.len() && members@[j as int].id == id,
            None => forall|k: int| 0 <= k < members@.len() ==> (#[trigger] members@[k]).id != id,
        },
{
    let mut lo: usize = 0;
    let mut hi: usize = members.len();
    while lo < hi
        invariant
            sorted_by_id(members@),
            0 <= lo <= hi <= members@.len(),
            forall|k: int| 0 <= k < lo ==> (#[trigger] members@[k]).id < id,
            forall|k: int| hi <= k < members@.len() ==> (#[trigger] members@[k]).id > id,
        decreases hi - lo,
    {
        let mid = lo + (hi - lo) / 2;
        let v = members[mid].id;
        if v == id {
            return Some(mid);
        } else if v < id {
            lo = mid + 1;
        } else {
            hi = mid;
        }
    }
    None
}

} // verus!
