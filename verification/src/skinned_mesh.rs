//! Bookkeeping of imported skin bindings: which renderables a skin drives,
//! which joint transforms each glTF instance resolved, and which bindings a
//! transform edit makes stale.
use vstd::prelude::*;
use crate::ids::{ComponentId, SkinId};
use crate::world::{contains_id, copy_ids, ne_pred, remove_all, without, World};

verus! {

/// A skin binding is identified by its mesh transform, glTF instance and skin.
#[derive(Debug, Clone, Copy, PartialEq, Eq, Structural)]
pub struct BindingKey {
    pub mesh_transform: ComponentId,
    pub gltf_component: ComponentId,
    pub skin_id: SkinId,
}

/// The renderables one skin binding drives, and the joints that were
/// resolved for its instance when it was registered.
#[derive(Debug)]
pub struct SkinBinding {
    pub key: BindingKey,
    pub renderables: Vec<ComponentId>,
    pub joints: Vec<ComponentId>,
}

/// The joint transforms resolved for one (glTF instance, skin) pair, in the
/// skin's joint order; a joint that was not spawned is `None`.
#[derive(Debug)]
pub struct InstanceJoints {
    pub gltf_component: ComponentId,
    pub skin_id: SkinId,
    pub joints: Vec<Option<ComponentId>>,
}

/// Skin bindings, their dirty flags and the resolved instance joints.
/// Removed bindings leave an empty slot, so binding indices stay stable.
#[derive(Debug)]
pub struct SkinnedMeshSystem {
    pub bindings: Vec<Option<SkinBinding>>,
    pub dirty_bindings: Vec<bool>,
    pub instance_joints: Vec<InstanceJoints>,
}

/// The joints registered for `(gltf, skin)` among `entries`.
pub open spec fn joints_lookup(entries: Seq<InstanceJoints>, gltf: ComponentId, skin: SkinId) -> Option<Seq<Option<ComponentId>>>
    decreases entries.len(),
{
    if entries.len() == 0 {
        None
    } else if entries.last().gltf_component == gltf && entries.last().skin_id == skin {
        Some(entries.last().joints@)
    } else {
        joints_lookup(entries.drop_last(), gltf, skin)
    }
}

/// The joints that were resolved, spawned ones only, in order.
pub open spec fn spawned(joints: Seq<Option<ComponentId>>) -> Seq<ComponentId>
    decreases joints.len(),
{
    if joints.len() == 0 {
        Seq::empty()
    } else {
        let rest = spawned(joints.drop_last());
        match joints.last() {
            Some(j) => rest.push(j),
            None => rest,
        }
    }
}


/// `x` is `root` or lies in its subtree.
pub open spec fn affected(w: &World, root: ComponentId, x: ComponentId) -> bool {
    x == root || w.descendants_or_self(root).contains(x)
}

/// A transform change under `root` makes binding `b` stale.
pub open spec fn stale_after(w: &World, root: ComponentId, b: SkinBinding) -> bool {
    affected(w, root, b.key.mesh_transform) || exists|j: int| 0 <= j < b.joints@.len() && affected(w, root, #[trigger] b.joints@[j])
}

impl SkinnedMeshSystem {
    /// Dirty flags align with bindings and no instance is registered twice.
    pub open spec fn wf(&self) -> bool {
        &&& self.dirty_bindings@.len() == self.bindings@.len()
        &&& forall|i: int, j: int| 0 <= i < j < self.instance_joints@.len() ==> !(
            #[trigger] self.instance_joints@[i].gltf_component == #[trigger] self.instance_joints@[j].gltf_component
            && self.instance_joints@[i].skin_id == self.instance_joints@[j].skin_id)
    }

    pub open spec fn joints_spec(&self, gltf: ComponentId, skin: SkinId) -> Option<Seq<Option<ComponentId>>> {
        joints_lookup(self.instance_joints@, gltf, skin)
    }

    /// Binding `i` is live and has `key`.
    pub open spec fn has_key(&self, i: int, key: BindingKey) -> bool {
        self.bindings@[i] matches Some(b) && b.key == key
    }

    /// Index of the first live binding with `key`, if any.
    pub open spec fn key_index(&self, key: BindingKey) -> Option<int> {
        if exists|i: int| 0 <= i < self.bindings@.len() && #[trigger] self.has_key(i, key) {
            Some(choose|i: int| 0 <= i < self.bindings@.len() && #[trigger] self.has_key(i, key)
                && forall|k: int| 0 <= k < i ==> !#[trigger] self.has_key(k, key))
        } else {
            None
        }
    }

    /// Binding `i` is live and drives `renderable`.
    pub open spec fn drives(&self, i: int, renderable: ComponentId) -> bool {
        self.bindings@[i] matches Some(b) && b.renderables@.contains(renderable)
    }

    /// An empty registry.
    pub fn new() -> (s: Self)
        ensures
            s.wf(),
            s.bindings@.len() == 0,
            s.instance_joints@.len() == 0,
    {
        SkinnedMeshSystem { bindings: Vec::new(), dirty_bindings: Vec::new(), instance_joints: Vec::new() }
    }

    proof fn lemma_lookup_unique(entries: Seq<InstanceJoints>, k: int)
        requires
            0 <= k < entries.len(),
            forall|i: int, j: int| 0 <= i < j < entries.len() ==> !(
                #[trigger] entries[i].gltf_component == #[trigger] entries[j].gltf_component
                && entries[i].skin_id == entries[j].skin_id),
        ensures
            joints_lookup(entries, entries[k].gltf_component, entries[k].skin_id) == Some(entries[k].joints@),
        decreases entries.len(),
    {
        if k < entries.len() - 1 {
            assert(entries.drop_last()[k] == entries[k]);
            Self::lemma_lookup_unique(entries.drop_last(), k);
        }
    }

    proof fn lemma_lookup_absent(entries: Seq<InstanceJoints>, gltf: ComponentId, skin: SkinId)
        requires
            forall|i: int| 0 <= i < entries.len() ==> !(#[trigger] entries[i].gltf_component == gltf && entries[i].skin_id == skin),
        ensures
            joints_lookup(entries, gltf, skin) is None,
        decreases entries.len(),
    {
        if entries.len() > 0 {
            assert(entries.last() == entries[entries.len() - 1]);
            Self::lemma_lookup_absent(entries.drop_last(), gltf, skin);
        }
    }

    proof fn lemma_lookup_other(entries: Seq<InstanceJoints>, k: int, e: InstanceJoints, gltf: ComponentId, skin: SkinId)
        requires
            0 <= k < entries.len(),
            !(e.gltf_component == gltf && e.skin_id == skin),
            !(entries[k].gltf_component == gltf && entries[k].skin_id == skin),
        ensures
            joints_lookup(entries.update(k, e), gltf, skin) == joints_lookup(entries, gltf, skin),
        decreases entries.len(),
    {
        if k < entries.len() - 1 {
            assert(entries.update(k, e).drop_last() =~= entries.drop_last().update(k, e));
            Self::lemma_lookup_other(entries.drop_last(), k, e, gltf, skin);
        } else {
            assert(entries.update(k, e).drop_last() =~= entries.drop_last());
        }
    }

    /// Records the joints resolved for one glTF instance of a skin, replacing
    /// any earlier record, and marks the live bindings of that pair dirty.
    pub fn register_skin_instance_joints(&mut self, gltf_component: ComponentId, skin_id: SkinId, joints: Vec<Option<ComponentId>>)
        requires
            old(self).wf(),
        ensures
            final(self).wf(),
            final(self).joints_spec(gltf_component, skin_id) == Some(joints@),
            forall|g: ComponentId, s: SkinId| !(g == gltf_component && s == skin_id)
                ==> #[trigger] final(self).joints_spec(g, s) == old(self).joints_spec(g, s),
            final(self).bindings@ == old(self).bindings@,
            forall|i: int| 0 <= i < final(self).dirty_bindings@.len() ==> #[trigger] final(self).dirty_bindings@[i]
                == (old(self).dirty_bindings@[i] || (final(self).bindings@[i] matches Some(b)
                    && b.key.gltf_component == gltf_component && b.key.skin_id == skin_id)),
    {
        let ghost joints_view = joints@;
        let mut pos: usize = 0;
        while pos < self.instance_joints.len()
            invariant_except_break
                pos <= self.instance_joints@.len(),
                forall|i: int| 0 <= i < pos ==> !(#[trigger] self.instance_joints@[i].gltf_component == gltf_component
                    && self.instance_joints@[i].skin_id == skin_id),
            ensures
                pos <= self.instance_joints@.len(),
                forall|i: int| 0 <= i < pos ==> !(#[trigger] self.instance_joints@[i].gltf_component == gltf_component
                    && self.instance_joints@[i].skin_id == skin_id),
                pos < self.instance_joints@.len() ==> self.instance_joints@[pos as int].gltf_component == gltf_component
                    && self.instance_joints@[pos as int].skin_id == skin_id,
            decreases self.instance_joints@.len() - pos,
        {
            if self.instance_joints[pos].gltf_component.index == gltf_component.index
                && self.instance_joints[pos].skin_id.index == skin_id.index {
                break;
            }
            pos += 1;
        }
        let ghost entries0 = self.instance_joints@;
        let entry = InstanceJoints { gltf_component, skin_id, joints };
        let ghost new_entry = entry;
        if pos < self.instance_joints.len() {
            let mut e = entry;
            self.instance_joints.set_and_swap(pos, &mut e);
            proof {
                let entries = self.instance_joints@;
                assert(entries[pos as int].gltf_component == gltf_component && entries[pos as int].skin_id == skin_id);
                assert(entries0[pos as int].gltf_component == gltf_component && entries0[pos as int].skin_id == skin_id);
                Self::lemma_lookup_unique(entries, pos as int);
                assert(entries =~= entries0.update(pos as int, new_entry));
                assert forall|g: ComponentId, s: SkinId| !(g == gltf_component && s == skin_id)
                    implies #[trigger] self.joints_spec(g, s) == old(self).joints_spec(g, s) by {
                    Self::lemma_lookup_other(entries0, pos as int, new_entry, g, s);
                }
            }
        } else {
            self.instance_joints.push(entry);
            proof {
                let entries = self.instance_joints@;
                assert(entries =~= entries0.push(new_entry));
                assert(entries.drop_last() =~= entries0);
                assert forall|g: ComponentId, s: SkinId| !(g == gltf_component && s == skin_id)
                    implies #[trigger] self.joints_spec(g, s) == old(self).joints_spec(g, s) by {
                }
            }
        }
        proof {
            if pos < entries0.len() {
                assert(self.instance_joints@ =~= entries0.update(pos as int, new_entry));
            } else {
                assert(self.instance_joints@ =~= entries0.push(new_entry));
            }
        }
        let ghost bindings0 = self.bindings@;
        let ghost dirty0 = self.dirty_bindings@;
        let mut i: usize = 0;
        while i < self.bindings.len()
            invariant
                i <= self.bindings@.len(),
                self.bindings@ == bindings0,
                self.instance_joints@ == if pos < entries0.len() { entries0.update(pos as int, new_entry) } else { entries0.push(new_entry) },
                self.dirty_bindings@.len() == dirty0.len(),
                dirty0.len() == bindings0.len(),
                forall|k: int| 0 <= k < i ==> #[trigger] self.dirty_bindings@[k]
                    == (dirty0[k] || (bindings0[k] matches Some(b) && b.key.gltf_component == gltf_component && b.key.skin_id == skin_id)),
                forall|k: int| i <= k < dirty0.len() ==> #[trigger] self.dirty_bindings@[k] == dirty0[k],
            decreases self.bindings@.len() - i,
        {
            let hit = match &self.bindings[i] {
                Some(b) => b.key.gltf_component.index == gltf_component.index && b.key.skin_id.index == skin_id.index,
                None => false,
            };
            if hit {
                self.dirty_bindings.set(i, true);
            }
            i += 1;
        }
        proof {
            assert(self.wf()) by {
                let entries = self.instance_joints@;
                assert forall|a: int, b: int| 0 <= a < b < entries.len() implies !(
                    #[trigger] entries[a].gltf_component == #[trigger] entries[b].gltf_component
                    && entries[a].skin_id == entries[b].skin_id) by {
                    if pos < entries0.len() {
                        assert(entries =~= entries0.update(pos as int, new_entry));
                    } else {
                        assert(entries =~= entries0.push(new_entry));
                    }
                    if b < entries0.len() && a != pos && b != pos {
                        assert(entries[a] == entries0[a] && entries[b] == entries0[b]);
                    }
                    if b == entries0.len() {
                        assert(a < pos || pos == entries0.len());
                    }
                    if a < entries0.len() && b < entries0.len() && (a == pos || b == pos) {
                        assert(entries0[pos as int].gltf_component == gltf_component && entries0[pos as int].skin_id == skin_id);
                        if a == pos {
                            assert(entries[b] == entries0[b]);
                        } else {
                            assert(entries[a] == entries0[a]);
                        }
                    }
                }
            }
            if pos < entries0.len() {
                assert(self.instance_joints@[pos as int] == new_entry);
            } else {
                assert(self.instance_joints@[entries0.len() as int] == new_entry);
            }
            Self::lemma_lookup_unique_last_or(self.instance_joints@, gltf_component, skin_id, joints_view);
            assert(entries0 == old(self).instance_joints@);
            assert forall|g: ComponentId, s: SkinId| !(g == gltf_component && s == skin_id)
                implies #[trigger] self.joints_spec(g, s) == old(self).joints_spec(g, s) by {
                if pos < entries0.len() {
                    Self::lemma_lookup_other(entries0, pos as int, new_entry, g, s);
                } else {
                    assert(self.instance_joints@.drop_last() =~= entries0);
                }
            }
        }
    }

    proof fn lemma_lookup_unique_last_or(entries: Seq<InstanceJoints>, gltf: ComponentId, skin: SkinId, j: Seq<Option<ComponentId>>)
        requires
            exists|k: int| 0 <= k < entries.len() && #[trigger] entries[k].gltf_component == gltf && entries[k].skin_id == skin
                && entries[k].joints@ == j,
            forall|a: int, b: int| 0 <= a < b < entries.len() ==> !(
                #[trigger] entries[a].gltf_component == #[trigger] entries[b].gltf_component
                && entries[a].skin_id == entries[b].skin_id),
        ensures
            joints_lookup(entries, gltf, skin) == Some(j),
    {
        let k = choose|k: int| 0 <= k < entries.len() && #[trigger] entries[k].gltf_component == gltf && entries[k].skin_id == skin
            && entries[k].joints@ == j;
        Self::lemma_lookup_unique(entries, k);
    }

    /// Index of the first live binding that drives `renderable`, if any.
    pub open spec fn drive_index(&self, renderable: ComponentId) -> Option<int> {
        if exists|i: int| 0 <= i < self.bindings@.len() && #[trigger] self.drives(i, renderable) {
            Some(choose|i: int| 0 <= i < self.bindings@.len() && #[trigger] self.drives(i, renderable)
                && forall|k: int| 0 <= k < i ==> !#[trigger] self.drives(k, renderable))
        } else {
            None
        }
    }

    /// The skin of the first live binding that drives `renderable`.
    pub open spec fn skin_for_spec(&self, renderable: ComponentId) -> Option<SkinId> {
        match self.drive_index(renderable) {
            Some(i) => Some(self.bindings@[i].unwrap().key.skin_id),
            None => None,
        }
    }

    /// `drive_index` is the least index of a binding that drives `r`.
    proof fn lemma_drive_index_least(&self, r: ComponentId, i: int)
        requires
            0 <= i < self.bindings@.len(),
            self.drives(i, r),
            forall|k: int| 0 <= k < i ==> !#[trigger] self.drives(k, r),
        ensures
            self.drive_index(r) == Some(i),
    {
        let c = choose|c: int| 0 <= c < self.bindings@.len() && #[trigger] self.drives(c, r)
            && forall|k: int| 0 <= k < c ==> !#[trigger] self.drives(k, r);
        if c < i {
            assert(!self.drives(c, r));
        } else if c > i {
            assert(!self.drives(i, r));
        }
    }

    /// Two registries whose bindings drive `r` at the same indices (the
    /// second may have more bindings, none driving `r`) agree on the skin
    /// that `r` gets, when the driving bindings keep their keys.
    proof fn lemma_skin_for_same(&self, other: &Self, r: ComponentId)
        requires
            self.bindings@.len() <= other.bindings@.len(),
            forall|k: int| 0 <= k < self.bindings@.len() ==> #[trigger] other.drives(k, r) == self.drives(k, r),
            forall|k: int| self.bindings@.len() <= k < other.bindings@.len() ==> !#[trigger] other.drives(k, r),
            forall|k: int| 0 <= k < self.bindings@.len() && #[trigger] self.drives(k, r) ==>
                other.bindings@[k].unwrap().key == self.bindings@[k].unwrap().key,
        ensures
            other.skin_for_spec(r) == self.skin_for_spec(r),
    {
        self.lemma_drive_index_props(r);
        match self.drive_index(r) {
            Some(c) => {
                assert(other.drives(c, r));
                assert forall|k: int| 0 <= k < c implies !#[trigger] other.drives(k, r) by {
                    assert(!self.drives(k, r));
                }
                other.lemma_drive_index_least(r, c);
            },
            None => {
                assert forall|k: int| 0 <= k < other.bindings@.len() implies !#[trigger] other.drives(k, r) by {
                    if k < self.bindings@.len() {
                        assert(!self.drives(k, r));
                    }
                }
                other.lemma_drive_index_props(r);
                if other.drive_index(r) is Some {
                    let j = other.drive_index(r).unwrap();
                    assert(other.drives(j, r));
                }
            },
        }
    }

    /// What `drive_index` returns.
    proof fn lemma_drive_index_props(&self, r: ComponentId)
        ensures
            match self.drive_index(r) {
                Some(i) => 0 <= i < self.bindings@.len() && self.drives(i, r)
                    && forall|k: int| 0 <= k < i ==> !#[trigger] self.drives(k, r),
                None => forall|k: int| 0 <= k < self.bindings@.len() ==> !#[trigger] self.drives(k, r),
            },
    {
        if exists|i: int| 0 <= i < self.bindings@.len() && #[trigger] self.drives(i, r) {
            let i0 = choose|i: int| 0 <= i < self.bindings@.len() && #[trigger] self.drives(i, r);
            lemma_least_driver(self, r, i0);
        }
    }

    fn spawned_joints(joints: &Vec<Option<ComponentId>>) -> (r: Vec<ComponentId>)
        ensures
            r@ == spawned(joints@),
    {
        let mut r: Vec<ComponentId> = Vec::new();
        let mut i: usize = 0;
        while i < joints.len()
            invariant
                i <= joints@.len(),
                r@ == spawned(joints@.take(i as int)),
            decreases joints@.len() - i,
        {
            proof {
                assert(joints@.take(i + 1).drop_last() =~= joints@.take(i as int));
                assert(joints@.take(i + 1).last() == joints@[i as int]);
            }
            match joints[i] {
                Some(j) => r.push(j),
                None => {},
            }
            i += 1;
        }
        proof {
            assert(joints@.take(joints@.len() as int) =~= joints@);
        }
        r
    }

    /// Records one renderable of a skin binding: appended to the binding with
    /// the same key, or starting a new binding that captures the instance's
    /// spawned joints. Either way the binding is marked dirty.
    pub fn register_binding(&mut self, renderable: ComponentId, mesh_transform: ComponentId, gltf_component: ComponentId, skin_id: SkinId)
        requires
            old(self).wf(),
        ensures
            final(self).wf(),
            final(self).instance_joints@ == old(self).instance_joints@,
            ({
                let key = BindingKey { mesh_transform, gltf_component, skin_id };
                match old(self).key_index(key) {
                    Some(i) => {
                        &&& final(self).bindings@.len() == old(self).bindings@.len()
                        &&& forall|k: int| 0 <= k < old(self).bindings@.len() && k != i ==> #[trigger] final(self).bindings@[k] == old(self).bindings@[k]
                        &&& final(self).bindings@[i] matches Some(b) && b.key == key
                            && b.renderables@ == old(self).bindings@[i].unwrap().renderables@.push(renderable)
                            && b.joints@ == old(self).bindings@[i].unwrap().joints@
                        &&& final(self).dirty_bindings@ == old(self).dirty_bindings@.update(i, true)
                    },
                    None => {
                        &&& final(self).bindings@.len() == old(self).bindings@.len() + 1
                        &&& forall|k: int| 0 <= k < old(self).bindings@.len() ==> #[trigger] final(self).bindings@[k] == old(self).bindings@[k]
                        &&& final(self).bindings@.last() matches Some(b) && b.key == key
                            && b.renderables@ == seq![renderable]
                            && b.joints@ == match old(self).joints_spec(gltf_component, skin_id) {
                                Some(j) => spawned(j),
                                None => Seq::<ComponentId>::empty(),
                            }
                        &&& final(self).dirty_bindings@ == old(self).dirty_bindings@.push(true)
                    },
                }
            }),
            forall|x: ComponentId| x != renderable ==> #[trigger] final(self).skin_for_spec(x) == old(self).skin_for_spec(x),
            old(self).skin_for_spec(renderable) is None ==> final(self).skin_for_spec(renderable) == Some(skin_id),
    {
        let key = BindingKey { mesh_transform, gltf_component, skin_id };
        let mut i: usize = 0;
        while i < self.bindings.len()
            invariant_except_break
                i <= self.bindings@.len(),
                forall|k: int| 0 <= k < i ==> !#[trigger] self.has_key(k, key),
            ensures
                i <= self.bindings@.len(),
                forall|k: int| 0 <= k < i ==> !#[trigger] self.has_key(k, key),
                i < self.bindings@.len() ==> self.has_key(i as int, key),
            decreases self.bindings@.len() - i,
        {
            let hit = match &self.bindings[i] {
                Some(b) => b.key == key,
                None => false,
            };
            proof {
                assert(hit == self.has_key(i as int, key));
            }
            if hit {
                break;
            }
            i += 1;
        }
        if i < self.bindings.len() {
            proof {
                let c = choose|c: int| 0 <= c < self.bindings@.len() && #[trigger] self.has_key(c, key)
                    && forall|k: int| 0 <= k < c ==> !#[trigger] self.has_key(k, key);
                assert(self.has_key(i as int, key));
                if c < i {
                    assert(!self.has_key(c, key));
                } else if c > i {
                    assert(!self.has_key(i as int, key));
                }
                assert(self.key_index(key) == Some(i as int));
            }
            let mut slot: Option<SkinBinding> = None;
            self.bindings.set_and_swap(i, &mut slot);
            let mut b = slot.unwrap();
            b.renderables.push(renderable);
            self.bindings.set(i, Some(b));
            self.dirty_bindings.set(i, true);
        } else {
            proof {
                assert(!(exists|c: int| 0 <= c < self.bindings@.len() && #[trigger] self.has_key(c, key)));
            }
            let joints = match self.instance_joints_for_skin(gltf_component, skin_id) {
                Some(j) => Self::spawned_joints(j),
                None => Vec::new(),
            };
            self.bindings.push(Some(SkinBinding { key, renderables: vec![renderable], joints }));
            self.dirty_bindings.push(true);
        }
        proof {
            let n = old(self).bindings@.len();
            assert forall|x: ComponentId| x != renderable implies #[trigger] self.skin_for_spec(x) == old(self).skin_for_spec(x) by {
                assert forall|k: int| 0 <= k < n implies #[trigger] self.drives(k, x) == old(self).drives(k, x) by {
                    if let Some(b) = self.bindings@[k] {
                        if let Some(ob) = old(self).bindings@[k] {
                            if b.renderables@ != ob.renderables@ {
                                assert(b.renderables@ == ob.renderables@.push(renderable));
                                if ob.renderables@.contains(x) {
                                    let j = choose|j: int| 0 <= j < ob.renderables@.len() && ob.renderables@[j] == x;
                                    assert(b.renderables@[j] == x);
                                }
                                if b.renderables@.contains(x) {
                                    let j = choose|j: int| 0 <= j < b.renderables@.len() && b.renderables@[j] == x;
                                    assert(ob.renderables@[j] == x);
                                }
                            }
                        }
                    }
                }
                assert forall|k: int| n <= k < self.bindings@.len() implies !#[trigger] self.drives(k, x) by {
                    assert(self.bindings@[k].unwrap().renderables@ == seq![renderable]);
                }
                old(self).lemma_skin_for_same(self, x);
            }
            if old(self).skin_for_spec(renderable) is None {
                assert forall|k: int| 0 <= k < n implies !#[trigger] old(self).drives(k, renderable) by {
                    if old(self).drives(k, renderable) {
                        assert(exists|i: int| 0 <= i < n && #[trigger] old(self).drives(i, renderable));
                    }
                }
                let i = if self.bindings@.len() == n { old(self).key_index(key).unwrap() } else { n as int };
                assert(self.bindings@[i].unwrap().renderables@.last() == renderable);
                assert(self.drives(i, renderable));
                assert forall|k: int| 0 <= k < i implies !#[trigger] self.drives(k, renderable) by {
                    assert(!old(self).drives(k, renderable));
                    assert(self.bindings@[k] == old(self).bindings@[k]);
                }
                self.lemma_drive_index_least(renderable, i);
            }
        }
    }

    /// Drops `renderable` from every binding; a binding left without
    /// renderables is removed and no longer dirty.
    pub fn remove_renderable(&mut self, renderable: ComponentId)
        requires
            old(self).wf(),
        ensures
            final(self).wf(),
            final(self).instance_joints@ == old(self).instance_joints@,
            final(self).bindings@.len() == old(self).bindings@.len(),
            forall|i: int| 0 <= i < old(self).bindings@.len() ==> match #[trigger] old(self).bindings@[i] {
                None => final(self).bindings@[i] is None && final(self).dirty_bindings@[i] == old(self).dirty_bindings@[i],
                Some(b) => if without(b.renderables@, renderable).len() == 0 {
                    final(self).bindings@[i] is None && !final(self).dirty_bindings@[i]
                } else {
                    &&& final(self).bindings@[i] matches Some(nb) && nb.key == b.key
                        && nb.renderables@ == without(b.renderables@, renderable) && nb.joints@ == b.joints@
                    &&& final(self).dirty_bindings@[i] == old(self).dirty_bindings@[i]
                },
            },
            final(self).drive_index(renderable) is None,
            final(self).skin_for_spec(renderable) is None,
            forall|x: ComponentId| x != renderable ==> #[trigger] final(self).skin_for_spec(x) == old(self).skin_for_spec(x),
    {
        let ghost b0 = self.bindings@;
        let ghost d0 = self.dirty_bindings@;
        let mut i: usize = 0;
        while i < self.bindings.len()
            invariant
                i <= self.bindings@.len(),
                self.bindings@.len() == b0.len(),
                self.dirty_bindings@.len() == d0.len(),
                d0.len() == b0.len(),
                self.instance_joints@ == old(self).instance_joints@,
                b0 == old(self).bindings@,
                d0 == old(self).dirty_bindings@,
                forall|k: int| i <= k < b0.len() ==> #[trigger] self.bindings@[k] == b0[k] && self.dirty_bindings@[k] == d0[k],
                forall|k: int| 0 <= k < i ==> match #[trigger] b0[k] {
                    None => self.bindings@[k] is None && self.dirty_bindings@[k] == d0[k],
                    Some(b) => if without(b.renderables@, renderable).len() == 0 {
                        self.bindings@[k] is None && !self.dirty_bindings@[k]
                    } else {
                        &&& self.bindings@[k] matches Some(nb) && nb.key == b.key
                            && nb.renderables@ == without(b.renderables@, renderable) && nb.joints@ == b.joints@
                        &&& self.dirty_bindings@[k] == d0[k]
                    },
                },
            decreases self.bindings@.len() - i,
        {
            let mut slot: Option<SkinBinding> = None;
            self.bindings.set_and_swap(i, &mut slot);
            match slot {
                Some(b) => {
                    let kept = remove_all(&b.renderables, renderable);
                    if kept.len() == 0 {
                        self.dirty_bindings.set(i, false);
                    } else {
                        self.bindings.set(i, Some(SkinBinding { key: b.key, renderables: kept, joints: b.joints }));
                    }
                },
                None => {},
            }
            i += 1;
        }
        proof {
            assert forall|k: int| 0 <= k < self.bindings@.len() implies !#[trigger] self.drives(k, renderable) by {
                match b0[k] {
                    Some(b) => {
                        crate::world::lemma_without_subset(b.renderables@, renderable);
                        if self.bindings@[k] is Some {
                            let nb = self.bindings@[k].unwrap();
                            if nb.renderables@.contains(renderable) {
                                let q = choose|q: int| 0 <= q < nb.renderables@.len() && nb.renderables@[q] == renderable;
                                assert(without(b.renderables@, renderable)[q] != renderable);
                            }
                        }
                    },
                    None => {},
                }
            }
        }
        proof {
            let n = old(self).bindings@.len();
            assert forall|x: ComponentId| x != renderable implies #[trigger] self.skin_for_spec(x) == old(self).skin_for_spec(x) by {
                assert forall|k: int| 0 <= k < n implies #[trigger] self.drives(k, x) == old(self).drives(k, x) by {
                    if let Some(ob) = old(self).bindings@[k] {
                        let w = without(ob.renderables@, renderable);
                        if ob.renderables@.contains(x) {
                            let j = choose|j: int| 0 <= j < ob.renderables@.len() && ob.renderables@[j] == x;
                            ob.renderables@.lemma_filter_contains(ne_pred(renderable), j);
                            assert(w.len() > 0);
                        }
                        if w.contains(x) {
                            ob.renderables@.lemma_filter_contains_rev(ne_pred(renderable), x);
                        }
                    }
                }
                assert forall|k: int| 0 <= k < n && #[trigger] old(self).drives(k, x) implies
                    self.bindings@[k].unwrap().key == old(self).bindings@[k].unwrap().key by {
                    let ob = old(self).bindings@[k].unwrap();
                    let j = choose|j: int| 0 <= j < ob.renderables@.len() && ob.renderables@[j] == x;
                    ob.renderables@.lemma_filter_contains(ne_pred(renderable), j);
                }
                old(self).lemma_skin_for_same(self, x);
            }
        }
    }

    /// The skin of the first live binding that drives `renderable`.
    pub fn skin_id_for_renderable(&self, renderable: ComponentId) -> (r: Option<SkinId>)
        ensures
            r == match self.drive_index(renderable) {
                Some(i) => Some(self.bindings@[i].unwrap().key.skin_id),
                None => None::<SkinId>,
            },
    {
        let mut i: usize = 0;
        while i < self.bindings.len()
            invariant
                i <= self.bindings@.len(),
                forall|k: int| 0 <= k < i ==> !#[trigger] self.drives(k, renderable),
            decreases self.bindings@.len() - i,
        {
            match &self.bindings[i] {
                Some(b) => {
                    if contains_id(&b.renderables, renderable) {
                        proof {
                            assert(self.drives(i as int, renderable));
                            let c = choose|c: int| 0 <= c < self.bindings@.len() && #[trigger] self.drives(c, renderable)
                                && forall|k: int| 0 <= k < c ==> !#[trigger] self.drives(k, renderable);
                            if c < i {
                                assert(!self.drives(c, renderable));
                            } else if c > i {
                                assert(!self.drives(i as int, renderable));
                            }
                        }
                        return Some(b.key.skin_id);
                    }
                },
                None => {},
            }
            i += 1;
        }
        proof {
            assert(!(exists|c: int| 0 <= c < self.bindings@.len() && #[trigger] self.drives(c, renderable)));
        }
        None
    }

    /// Marks dirty every live binding whose mesh transform or one of whose
    /// captured joints is `root` or lies under it.
    pub fn transform_subtree_changed(&mut self, world: &World, root: ComponentId)
        requires
            old(self).wf(),
        ensures
            final(self).wf(),
            final(self).bindings@ == old(self).bindings@,
            final(self).instance_joints@ == old(self).instance_joints@,
            forall|i: int| 0 <= i < final(self).dirty_bindings@.len() ==> #[trigger] final(self).dirty_bindings@[i]
                == (old(self).dirty_bindings@[i] || (old(self).bindings@[i] matches Some(b) && stale_after(world, root, b))),
    {
        let ids = world.subtree_of(root);
        let ghost d0 = self.dirty_bindings@;
        let mut i: usize = 0;
        while i < self.bindings.len()
            invariant
                i <= self.bindings@.len(),
                self.bindings@ == old(self).bindings@,
                self.instance_joints@ == old(self).instance_joints@,
                d0 == old(self).dirty_bindings@,
                ids@ == world.descendants_or_self(root),
                self.dirty_bindings@.len() == d0.len(),
                d0.len() == self.bindings@.len(),
                forall|k: int| 0 <= k < i ==> #[trigger] self.dirty_bindings@[k]
                    == (d0[k] || (self.bindings@[k] matches Some(b) && stale_after(world, root, b))),
                forall|k: int| i <= k < d0.len() ==> #[trigger] self.dirty_bindings@[k] == d0[k],
            decreases self.bindings@.len() - i,
        {
            let stale = match &self.bindings[i] {
                Some(b) => {
                    let mut hit = b.key.mesh_transform.index == root.index || contains_id(&ids, b.key.mesh_transform);
                    let mut j: usize = 0;
                    while j < b.joints.len() && !hit
                        invariant
                            j <= b.joints@.len(),
                            ids@ == world.descendants_or_self(root),
                            hit == (affected(world, root, b.key.mesh_transform) || exists|q: int| 0 <= q < j && affected(world, root, #[trigger] b.joints@[q])),
                        decreases b.joints@.len() - j,
                    {
                        let x = b.joints[j];
                        hit = x.index == root.index || contains_id(&ids, x);
                        proof {
                            if hit {
                                assert(affected(world, root, b.joints@[j as int]));
                            }
                            assert forall|q: int| 0 <= q < j + 1 && affected(world, root, #[trigger] b.joints@[q]) implies hit by {
                                if q == j {
                                } 
                            }
                        }
                        j += 1;
                    }
                    proof {
                        if !hit {
                            assert(j == b.joints@.len());
                        }
                    }
                    hit
                },
                None => false,
            };
            if stale {
                self.dirty_bindings.set(i, true);
            }
            i += 1;
        }
    }

    /// The joints recorded for one glTF instance of a skin.
    pub fn instance_joints_for_skin(&self, gltf_component: ComponentId, skin_id: SkinId) -> (r: Option<&Vec<Option<ComponentId>>>)
        ensures
            match r {
                Some(v) => self.joints_spec(gltf_component, skin_id) == Some(v@),
                None => self.joints_spec(gltf_component, skin_id) is None,
            },
    {
        let mut i = self.instance_joints.len();
        proof {
            assert(self.instance_joints@.take(i as int) =~= self.instance_joints@);
        }
        while i > 0
            invariant
                i <= self.instance_joints@.len(),
                joints_lookup(self.instance_joints@.take(i as int), gltf_component, skin_id)
                    == joints_lookup(self.instance_joints@, gltf_component, skin_id),
            decreases i,
        {
            proof {
                assert(self.instance_joints@.take(i as int).drop_last() =~= self.instance_joints@.take(i - 1));
                assert(self.instance_joints@.take(i as int).last() == self.instance_joints@[i - 1]);
            }
            let e = &self.instance_joints[i - 1];
            if e.gltf_component.index == gltf_component.index && e.skin_id.index == skin_id.index {
                return Some(&e.joints);
            }
            i -= 1;
        }
        None
    }
}

/// A binding whose skin matrices are due: where it sits, what it is, and
/// the renderables to upload them to.
#[derive(Debug)]
pub struct DueBinding {
    pub index: usize,
    pub key: BindingKey,
    pub renderables: Vec<ComponentId>,
}

/// The positions, below `n`, of the live bindings whose dirty flag is set,
/// in order.
pub open spec fn due_indices(dirty: Seq<bool>, bindings: Seq<Option<SkinBinding>>, n: int) -> Seq<int>
    decreases n,
{
    if n <= 0 {
        Seq::empty()
    } else {
        let rest = due_indices(dirty, bindings, n - 1);
        if dirty[n - 1] && bindings[n - 1] is Some {
            rest.push(n - 1)
        } else {
            rest
        }
    }
}

proof fn lemma_due_indices(dirty: Seq<bool>, bindings: Seq<Option<SkinBinding>>, n: int)
    ensures
        forall|k: int| 0 <= k < due_indices(dirty, bindings, n).len() ==> 0 <= #[trigger] due_indices(dirty, bindings, n)[k] < n,
    decreases n,
{
    if n > 0 {
        lemma_due_indices(dirty, bindings, n - 1);
        let rest = due_indices(dirty, bindings, n - 1);
        let all = due_indices(dirty, bindings, n);
        assert forall|k: int| 0 <= k < all.len() implies 0 <= #[trigger] all[k] < n by {
            if k < rest.len() {
                assert(all[k] == rest[k]);
            }
        }
    }
}

impl SkinnedMeshSystem {
    /// Takes every dirty live binding for an update, in binding order, and
    /// clears every dirty flag.
    #[verifier::spinoff_prover]
    #[verifier::rlimit(40)]
    pub fn take_due_bindings(&mut self) -> (due: Vec<DueBinding>)
        requires
            old(self).wf(),
        ensures
            final(self).wf(),
            final(self).bindings@ == old(self).bindings@,
            final(self).instance_joints@ == old(self).instance_joints@,
            forall|i: int| 0 <= i < final(self).dirty_bindings@.len() ==> !#[trigger] final(self).dirty_bindings@[i],
            ({
                let idx = due_indices(old(self).dirty_bindings@, old(self).bindings@, old(self).bindings@.len() as int);
                &&& due@.len() == idx.len()
                &&& forall|k: int| 0 <= k < due@.len() ==> {
                    let d = #[trigger] due@[k];
                    &&& d.index == idx[k]
                    &&& old(self).bindings@[idx[k]] matches Some(b) && d.key == b.key && d.renderables@ == b.renderables@
                }
            }),
    {
        let ghost dirty0 = self.dirty_bindings@;
        let mut due: Vec<DueBinding> = Vec::new();
        let n = self.bindings.len();
        let mut i: usize = 0;
        while i < n
            invariant
                n == self.bindings@.len(),
                i <= n,
                self.wf(),
                self.bindings@ == old(self).bindings@,
                self.instance_joints@ == old(self).instance_joints@,
                dirty0 == old(self).dirty_bindings@,
                forall|k: int| 0 <= k < i ==> !#[trigger] self.dirty_bindings@[k],
                forall|k: int| i <= k < n ==> #[trigger] self.dirty_bindings@[k] == dirty0[k],
                due@.len() == due_indices(dirty0, self.bindings@, i as int).len(),
                forall|k: int| 0 <= k < due@.len() ==> {
                    let idx = due_indices(dirty0, self.bindings@, i as int);
                    let d = #[trigger] due@[k];
                    &&& d.index == idx[k]
                    &&& self.bindings@[idx[k]] matches Some(b) && d.key == b.key && d.renderables@ == b.renderables@
                },
            decreases n - i,
        {
            let ghost before = due@;
            proof {
                lemma_due_indices(dirty0, self.bindings@, i as int);
            }
            if self.dirty_bindings[i] {
                self.dirty_bindings.set(i, false);
                match &self.bindings[i] {
                    Some(b) => {
                        due.push(DueBinding { index: i, key: b.key, renderables: copy_ids(&b.renderables) });
                    },
                    None => {},
                }
            }
            proof {
                let idx0 = due_indices(dirty0, self.bindings@, i as int);
                let idx1 = due_indices(dirty0, self.bindings@, i + 1);
                if dirty0[i as int] && self.bindings@[i as int] is Some {
                    assert(idx1 == idx0.push(i as int));
                    assert(due@.len() == before.len() + 1);
                    let b = self.bindings@[i as int]->Some_0;
                    assert(due@[before.len() as int].index == i);
                    assert(due@[before.len() as int].key == b.key);
                    assert(due@[before.len() as int].renderables@ == b.renderables@);
                    assert forall|k: int| 0 <= k < due@.len() implies {
                        let d = #[trigger] due@[k];
                        &&& d.index == idx1[k]
                        &&& self.bindings@[idx1[k]] matches Some(b) && d.key == b.key && d.renderables@ == b.renderables@
                    } by {
                        if k < before.len() {
                            assert(due@[k] == before[k]);
                        } else {
                            assert(k == before.len());
                            assert(idx1[k] == i);
                        }
                    }
                } else {
                    assert(idx1 == idx0);
                    assert(due@ == before);
                    assert forall|k: int| 0 <= k < due@.len() implies {
                        let d = #[trigger] due@[k];
                        &&& d.index == idx1[k]
                        &&& self.bindings@[idx1[k]] matches Some(b) && d.key == b.key && d.renderables@ == b.renderables@
                    } by {
                        assert(due@[k] == before[k]);
                    }
                }
            }
            i += 1;
        }
        due
    }

    /// Records how updating the due binding at `index` went: one whose data
    /// was not ready, or one of whose renderables had nothing to upload to
    /// yet, is due again.
    pub fn finish_due_binding(&mut self, index: usize, retry: bool)
        requires
            old(self).wf(),
        ensures
            final(self).wf(),
            final(self).bindings@ == old(self).bindings@,
            final(self).instance_joints@ == old(self).instance_joints@,
            final(self).dirty_bindings@ == if retry && index < old(self).dirty_bindings@.len() {
                old(self).dirty_bindings@.update(index as int, true)
            } else {
                old(self).dirty_bindings@
            },
    {
        if retry && index < self.dirty_bindings.len() {
            self.dirty_bindings.set(index, true);
        }
    }
}

/// Some binding drives `r` at or below `i`, so a least one exists.
proof fn lemma_least_driver(s: &SkinnedMeshSystem, r: ComponentId, i: int)
    requires
        0 <= i < s.bindings@.len(),
        s.drives(i, r),
    ensures
        exists|c: int| 0 <= c < s.bindings@.len() && #[trigger] s.drives(c, r)
            && forall|k: int| 0 <= k < c ==> !#[trigger] s.drives(k, r),
    decreases i,
{
    if exists|k: int| 0 <= k < i && #[trigger] s.drives(k, r) {
        let k = choose|k: int| 0 <= k < i && #[trigger] s.drives(k, r);
        lemma_least_driver(s, r, k);
    } else {
        assert(forall|k: int| 0 <= k < i ==> !#[trigger] s.drives(k, r));
    }
}

} // verus!
