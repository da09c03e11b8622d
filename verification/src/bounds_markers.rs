//! Bookkeeping of the editor's bounds overlays: which mesh outputs and
//! imported meshes have a bounds marker, which markers are stale, and which
//! outputs need one spawned.
use vstd::prelude::*;
use crate::grid_system::{editor_root_spec, first_ancestor, AncestorKind};
use crate::ids::ComponentId;
use crate::world::{contains_id, World};

verus! {

/// The kind of runtime mesh output that provides an aggregate bound.
#[derive(Debug, Clone, Copy, PartialEq, Eq, Structural)]
pub enum MeshOutputKind {
    CombineMesh,
    ImplicitSurface,
}

/// A registered mesh output, as marker reconciliation sees it.
#[derive(Debug, Clone, Copy, PartialEq, Eq, Structural)]
pub struct MeshOutput {
    pub owner: ComponentId,
    pub kind: MeshOutputKind,
}

/// A bounds marker: the subtree rooted at `root` draws the bounds of `target`.
#[derive(Debug, Clone, Copy, PartialEq, Eq, Structural)]
pub struct BoundsMarker {
    pub target: ComponentId,
    pub root: ComponentId,
}

/// What one reconciliation asks of the caller: remove the marker subtrees
/// rooted at `remove_roots`, in order, and spawn a marker for each owner of
/// `spawn_for`, registering it afterwards.
#[derive(Debug, Clone, PartialEq, Eq)]
pub struct MarkerSync {
    pub remove_roots: Vec<ComponentId>,
    pub spawn_for: Vec<ComponentId>,
}

/// An output is shown as an editor aid: a combined mesh whose owner lies
/// under an editor root.
pub open spec fn output_qualifies(w: &World, o: MeshOutput) -> bool {
    o.kind == MeshOutputKind::CombineMesh && editor_root_spec(w, o.owner) is Some
}

/// Some qualifying output is owned by `owner`.
pub open spec fn owner_qualifies(w: &World, outputs: Seq<MeshOutput>, owner: ComponentId) -> bool {
    exists|i: int| 0 <= i < outputs.len() && #[trigger] outputs[i].owner == owner && output_qualifies(w, outputs[i])
}

/// A marker is stale when its owner no longer qualifies or its target or
/// root has been removed.
pub open spec fn marker_stale(w: &World, outputs: Seq<MeshOutput>, m: BoundsMarker) -> bool {
    !owner_qualifies(w, outputs, m.target) || !w.live(m.root) || !w.live(m.target)
}

/// The markers that are not stale, in order.
pub open spec fn kept_markers(w: &World, outputs: Seq<MeshOutput>, ms: Seq<BoundsMarker>) -> Seq<BoundsMarker>
    decreases ms.len(),
{
    if ms.len() == 0 {
        ms
    } else {
        let rest = kept_markers(w, outputs, ms.drop_last());
        if marker_stale(w, outputs, ms.last()) {
            rest
        } else {
            rest.push(ms.last())
        }
    }
}

/// The roots of the stale markers, in order.
pub open spec fn stale_roots(w: &World, outputs: Seq<MeshOutput>, ms: Seq<BoundsMarker>) -> Seq<ComponentId>
    decreases ms.len(),
{
    if ms.len() == 0 {
        Seq::empty()
    } else {
        let rest = stale_roots(w, outputs, ms.drop_last());
        if marker_stale(w, outputs, ms.last()) {
            rest.push(ms.last().root)
        } else {
            rest
        }
    }
}

/// The roots of `ms`, in order.
pub open spec fn marker_roots(ms: Seq<BoundsMarker>) -> Seq<ComponentId> {
    Seq::new(ms.len(), |i: int| ms[i].root)
}

/// `ms` has a marker for `target`.
pub open spec fn has_marker(ms: Seq<BoundsMarker>, target: ComponentId) -> bool {
    exists|i: int| 0 <= i < ms.len() && #[trigger] ms[i].target == target
}

/// The owners that get a new marker, in output order: qualifying, live,
/// without a kept marker, each once.
pub open spec fn spawn_owners(w: &World, kept: Seq<BoundsMarker>, outs: Seq<MeshOutput>) -> Seq<ComponentId>
    decreases outs.len(),
{
    if outs.len() == 0 {
        Seq::empty()
    } else {
        let prev = spawn_owners(w, kept, outs.drop_last());
        let o = outs.last();
        if output_qualifies(w, o) && w.live(o.owner) && !has_marker(kept, o.owner) && !prev.contains(o.owner) {
            prev.push(o.owner)
        } else {
            prev
        }
    }
}

/// The owner lies under an editor root, itself included.
pub fn is_within_editor_scope(w: &World, owner: ComponentId) -> (b: bool)
    ensures
        b == (editor_root_spec(w, owner) is Some),
{
    first_ancestor(w, Some(owner), AncestorKind::Editor).is_some()
}

fn owner_qualifies_exec(w: &World, outputs: &Vec<MeshOutput>, owner: ComponentId) -> (b: bool)
    ensures
        b == owner_qualifies(w, outputs@, owner),
{
    let mut i: usize = 0;
    while i < outputs.len()
        invariant
            i <= outputs@.len(),
            forall|k: int| 0 <= k < i ==> !(#[trigger] outputs@[k].owner == owner && output_qualifies(w, outputs@[k])),
        decreases outputs@.len() - i,
    {
        let o = outputs[i];
        if o.owner == owner && o.kind == MeshOutputKind::CombineMesh && is_within_editor_scope(w, o.owner) {
            return true;
        }
        i += 1;
    }
    false
}

fn has_marker_exec(ms: &Vec<BoundsMarker>, target: ComponentId) -> (b: bool)
    ensures
        b == has_marker(ms@, target),
{
    let mut i: usize = 0;
    while i < ms.len()
        invariant
            i <= ms@.len(),
            forall|k: int| 0 <= k < i ==> #[trigger] ms@[k].target != target,
        decreases ms@.len() - i,
    {
        if ms[i].target == target {
            return true;
        }
        i += 1;
    }
    false
}

/// Reconciles the mesh-output markers with the registered outputs: stale
/// markers are dropped and their subtrees removed; when overlays are hidden
/// every remaining marker is removed too; otherwise each qualifying live
/// output without a marker is listed for spawning.
pub fn sync_mesh_output_markers(markers: &mut Vec<BoundsMarker>, world: &World, outputs: &Vec<MeshOutput>, visible: bool) -> (plan: MarkerSync)
    ensures
        visible ==> final(markers)@ == kept_markers(world, outputs@, old(markers)@),
        !visible ==> final(markers)@.len() == 0,
        visible ==> plan.remove_roots@ == stale_roots(world, outputs@, old(markers)@),
        !visible ==> plan.remove_roots@ == stale_roots(world, outputs@, old(markers)@) + marker_roots(
            kept_markers(world, outputs@, old(markers)@),
        ),
        visible ==> plan.spawn_for@ == spawn_owners(world, kept_markers(world, outputs@, old(markers)@), outputs@),
        !visible ==> plan.spawn_for@.len() == 0,
{
    let ghost ms = markers@;
    let mut kept: Vec<BoundsMarker> = Vec::new();
    let mut removed: Vec<ComponentId> = Vec::new();
    let n = markers.len();
    let mut i: usize = 0;
    while i < n
        invariant
            n == markers@.len(),
            ms == markers@,
            i <= n,
            kept@ == kept_markers(world, outputs@, ms.take(i as int)),
            removed@ == stale_roots(world, outputs@, ms.take(i as int)),
        decreases n - i,
    {
        let m = markers[i];
        proof {
            assert(ms.take(i + 1).drop_last() =~= ms.take(i as int));
            assert(ms.take(i + 1).last() == m);
        }
        let stale = !owner_qualifies_exec(world, outputs, m.target) || !world.contains(m.root) || !world.contains(
            m.target,
        );
        if stale {
            removed.push(m.root);
        } else {
            kept.push(m);
        }
        i += 1;
    }
    proof {
        assert(ms.take(n as int) =~= ms);
    }
    if !visible {
        let ghost before = removed@;
        let mut j: usize = 0;
        while j < kept.len()
            invariant
                j <= kept@.len(),
                removed@ == before + marker_roots(kept@.take(j as int)),
            decreases kept@.len() - j,
        {
            removed.push(kept[j].root);
            j += 1;
            proof {
                assert(marker_roots(kept@.take(j as int)) =~= marker_roots(kept@.take(j - 1)).push(kept@[j - 1].root));
            }
        }
        proof {
            assert(kept@.take(kept@.len() as int) =~= kept@);
        }
        *markers = Vec::new();
        return MarkerSync { remove_roots: removed, spawn_for: Vec::new() };
    }
    let mut spawn: Vec<ComponentId> = Vec::new();
    let m_out = outputs.len();
    let mut k: usize = 0;
    while k < m_out
        invariant
            m_out == outputs@.len(),
            k <= m_out,
            spawn@ == spawn_owners(world, kept@, outputs@.take(k as int)),
        decreases m_out - k,
    {
        let o = outputs[k];
        proof {
            assert(outputs@.take(k + 1).drop_last() =~= outputs@.take(k as int));
            assert(outputs@.take(k + 1).last() == o);
        }
        if o.kind == MeshOutputKind::CombineMesh && is_within_editor_scope(world, o.owner) && world.contains(o.owner)
            && !has_marker_exec(&kept, o.owner) && !contains_id(&spawn, o.owner) {
            spawn.push(o.owner);
        }
        k += 1;
    }
    proof {
        assert(outputs@.take(m_out as int) =~= outputs@);
    }
    *markers = kept;
    MarkerSync { remove_roots: removed, spawn_for: spawn }
}

/// `ms` without the markers of `target`, in order.
pub open spec fn without_target(ms: Seq<BoundsMarker>, target: ComponentId) -> Seq<BoundsMarker>
    decreases ms.len(),
{
    if ms.len() == 0 {
        ms
    } else {
        let rest = without_target(ms.drop_last(), target);
        if ms.last().target == target {
            rest
        } else {
            rest.push(ms.last())
        }
    }
}

/// Records the marker spawned for `target`, replacing any earlier one.
fn put_marker(markers: &mut Vec<BoundsMarker>, marker: BoundsMarker)
    ensures
        final(markers)@ == without_target(old(markers)@, marker.target).push(marker),
{
    let mut kept: Vec<BoundsMarker> = Vec::new();
    let n = markers.len();
    let mut i: usize = 0;
    while i < n
        invariant
            n == markers@.len(),
            i <= n,
            kept@ == without_target(markers@.take(i as int), marker.target),
        decreases n - i,
    {
        let m = markers[i];
        proof {
            assert(markers@.take(i + 1).drop_last() =~= markers@.take(i as int));
        }
        if m.target != marker.target {
            kept.push(m);
        }
        i += 1;
    }
    proof {
        assert(markers@.take(n as int) =~= markers@);
    }
    kept.push(marker);
    *markers = kept;
}

/// Editor-facing coordinator of the mesh-output bounds overlay.
#[derive(Debug)]
pub struct BoundsVisualizationSystem {
    /// The marker of each mesh output that has one.
    pub mesh_output_markers: Vec<BoundsMarker>,
}

impl BoundsVisualizationSystem {
    pub fn new() -> (s: Self)
        ensures
            s.mesh_output_markers@.len() == 0,
    {
        BoundsVisualizationSystem { mesh_output_markers: Vec::new() }
    }

    /// Reconciles the mesh-output markers; see [`sync_mesh_output_markers`].
    pub fn sync_mesh_output_markers(&mut self, world: &World, outputs: &Vec<MeshOutput>, visible: bool) -> (plan: MarkerSync)
        ensures
            visible ==> final(self).mesh_output_markers@ == kept_markers(world, outputs@, old(self).mesh_output_markers@),
            !visible ==> final(self).mesh_output_markers@.len() == 0,
            visible ==> plan.remove_roots@ == stale_roots(world, outputs@, old(self).mesh_output_markers@),
            !visible ==> plan.remove_roots@ == stale_roots(world, outputs@, old(self).mesh_output_markers@)
                + marker_roots(kept_markers(world, outputs@, old(self).mesh_output_markers@)),
            visible ==> plan.spawn_for@ == spawn_owners(
                world,
                kept_markers(world, outputs@, old(self).mesh_output_markers@),
                outputs@,
            ),
            !visible ==> plan.spawn_for@.len() == 0,
    {
        sync_mesh_output_markers(&mut self.mesh_output_markers, world, outputs, visible)
    }

    /// Records the marker subtree spawned at `root` for `owner`.
    pub fn register_mesh_output_marker(&mut self, owner: ComponentId, root: ComponentId)
        ensures
            final(self).mesh_output_markers@ == without_target(old(self).mesh_output_markers@, owner).push(
                BoundsMarker { target: owner, root },
            ),
    {
        put_marker(&mut self.mesh_output_markers, BoundsMarker { target: owner, root });
    }
}

/// The markers drawn for one imported glTF scene.
#[derive(Debug)]
pub struct GltfMarkers {
    pub gltf: ComponentId,
    pub markers: Vec<BoundsMarker>,
}

/// The markers of `g` in a table of glTF markers, the latest entry winning.
pub open spec fn gltf_lookup(t: Seq<(ComponentId, Seq<BoundsMarker>)>, g: ComponentId) -> Option<Seq<BoundsMarker>>
    decreases t.len(),
{
    if t.len() == 0 {
        None
    } else if t.last().0 == g {
        Some(t.last().1)
    } else {
        gltf_lookup(t.drop_last(), g)
    }
}

/// The markers whose root and target are both still live, in order.
pub open spec fn live_markers(w: &World, ms: Seq<BoundsMarker>) -> Seq<BoundsMarker>
    decreases ms.len(),
{
    if ms.len() == 0 {
        ms
    } else {
        let rest = live_markers(w, ms.drop_last());
        if w.live(ms.last().root) && w.live(ms.last().target) {
            rest.push(ms.last())
        } else {
            rest
        }
    }
}

/// The table after dropping removed glTF scenes and markers whose root or
/// target has been removed.
pub open spec fn cleaned_table(w: &World, t: Seq<(ComponentId, Seq<BoundsMarker>)>) -> Seq<(ComponentId, Seq<BoundsMarker>)>
    decreases t.len(),
{
    if t.len() == 0 {
        t
    } else {
        let rest = cleaned_table(w, t.drop_last());
        if w.live(t.last().0) {
            rest.push((t.last().0, live_markers(w, t.last().1)))
        } else {
            rest
        }
    }
}

/// The targets of `ms`, in order.
pub open spec fn marker_targets(ms: Seq<BoundsMarker>) -> Seq<ComponentId> {
    Seq::new(ms.len(), |i: int| ms[i].target)
}

proof fn lemma_lookup_update_last(
    t: Seq<(ComponentId, Seq<BoundsMarker>)>,
    i: int,
    x: Seq<BoundsMarker>,
    k: ComponentId,
)
    requires
        0 <= i < t.len(),
        forall|j: int| i < j < t.len() ==> #[trigger] t[j].0 != t[i].0,
    ensures
        gltf_lookup(t.update(i, (t[i].0, x)), k) == if k == t[i].0 {
            Some(x)
        } else {
            gltf_lookup(t, k)
        },
    decreases t.len(),
{
    let u = t.update(i, (t[i].0, x));
    if i < t.len() - 1 {
        assert(u.drop_last() =~= t.drop_last().update(i, (t[i].0, x)));
        assert(u.last() == t.last());
        assert(t.last().0 != t[i].0);
        assert forall|j: int| i < j < t.drop_last().len() implies #[trigger] t.drop_last()[j].0 != t.drop_last()[i].0 by {
            assert(t.drop_last()[j] == t[j]);
        }
        lemma_lookup_update_last(t.drop_last(), i, x, k);
    } else {
        assert(u.drop_last() =~= t.drop_last());
    }
}

/// Draws the bounds of imported glTF meshes and of generated mesh outputs
/// without inserting debug nodes into authored hierarchies.
#[derive(Debug)]
pub struct GltfBoundsVisualizationSystem {
    pub markers: Vec<GltfMarkers>,
    pub mesh_output_markers: Vec<BoundsMarker>,
}

impl GltfBoundsVisualizationSystem {
    pub fn new() -> (s: Self)
        ensures
            s.markers@.len() == 0,
            s.mesh_output_markers@.len() == 0,
    {
        GltfBoundsVisualizationSystem { markers: Vec::new(), mesh_output_markers: Vec::new() }
    }

    /// The glTF marker table: each scene with its markers.
    pub open spec fn marker_table(&self) -> Seq<(ComponentId, Seq<BoundsMarker>)> {
        Seq::new(self.markers@.len(), |i: int| (self.markers@[i].gltf, self.markers@[i].markers@))
    }

    fn last_entry(&self, gltf: ComponentId) -> (r: Option<usize>)
        ensures
            r matches Some(i) ==> i < self.markers@.len() && self.markers@[i as int].gltf == gltf && forall|j: int|
                i < j < self.markers@.len() ==> #[trigger] self.markers@[j].gltf != gltf,
            r is None ==> gltf_lookup(self.marker_table(), gltf) is None,
    {
        let mut i = self.markers.len();
        while i > 0
            invariant
                i <= self.markers@.len(),
                forall|j: int| i <= j < self.markers@.len() ==> #[trigger] self.markers@[j].gltf != gltf,
            decreases i,
        {
            if self.markers[i - 1].gltf == gltf {
                return Some(i - 1);
            }
            i -= 1;
        }
        proof {
            let t = self.marker_table();
            assert forall|n: int| 0 <= n <= t.len() implies gltf_lookup(#[trigger] t.take(n), gltf) is None by {
                lemma_lookup_absent(t, n, gltf);
            }
            assert(t.take(t.len() as int) =~= t);
        }
        None
    }

    /// Drops the markers of removed glTF scenes and the markers whose root
    /// or target has been removed.
    pub fn cleanup(&mut self, world: &World)
        ensures
            final(self).marker_table() == cleaned_table(world, old(self).marker_table()),
            final(self).mesh_output_markers@ == old(self).mesh_output_markers@,
    {
        let ghost t = self.marker_table();
        let mut out: Vec<GltfMarkers> = Vec::new();
        let n = self.markers.len();
        let mut i: usize = 0;
        while i < n
            invariant
                n == self.markers@.len(),
                t == self.marker_table(),
                i <= n,
                Seq::new(out@.len(), |q: int| (out@[q].gltf, out@[q].markers@)) == cleaned_table(world, t.take(i as int)),
            decreases n - i,
        {
            let entry = &self.markers[i];
            proof {
                assert(t.take(i + 1).drop_last() =~= t.take(i as int));
                assert(t.take(i + 1).last() == (entry.gltf, entry.markers@));
            }
            let ghost before = Seq::new(out@.len(), |q: int| (out@[q].gltf, out@[q].markers@));
            if world.contains(entry.gltf) {
                let mut live: Vec<BoundsMarker> = Vec::new();
                let m = entry.markers.len();
                let mut k: usize = 0;
                while k < m
                    invariant
                        m == entry.markers@.len(),
                        k <= m,
                        live@ == live_markers(world, entry.markers@.take(k as int)),
                    decreases m - k,
                {
                    let mk = entry.markers[k];
                    proof {
                        assert(entry.markers@.take(k + 1).drop_last() =~= entry.markers@.take(k as int));
                    }
                    if world.contains(mk.root) && world.contains(mk.target) {
                        live.push(mk);
                    }
                    k += 1;
                }
                proof {
                    assert(entry.markers@.take(m as int) =~= entry.markers@);
                }
                out.push(GltfMarkers { gltf: entry.gltf, markers: live });
                proof {
                    assert(Seq::new(out@.len(), |q: int| (out@[q].gltf, out@[q].markers@)) =~= before.push(
                        (entry.gltf, live_markers(world, entry.markers@)),
                    ));
                }
            }
            i += 1;
        }
        proof {
            assert(t.take(n as int) =~= t);
        }
        self.markers = out;
    }

    /// The targets that already have a marker for `gltf`.
    pub fn existing_targets(&self, gltf: ComponentId) -> (r: Vec<ComponentId>)
        ensures
            r@ == match gltf_lookup(self.marker_table(), gltf) {
                Some(ms) => marker_targets(ms),
                None => Seq::empty(),
            },
    {
        match self.last_entry(gltf) {
            None => Vec::new(),
            Some(i) => {
                proof {
                    lemma_lookup_last_entry(self.marker_table(), i as int);
                }
                let ms = &self.markers[i].markers;
                let mut r: Vec<ComponentId> = Vec::new();
                let mut k: usize = 0;
                while k < ms.len()
                    invariant
                        k <= ms@.len(),
                        r@ == marker_targets(ms@.take(k as int)),
                    decreases ms@.len() - k,
                {
                    r.push(ms[k].target);
                    k += 1;
                    proof {
                        assert(marker_targets(ms@.take(k as int)) =~= marker_targets(ms@.take(k - 1)).push(ms@[k - 1].target));
                    }
                }
                proof {
                    assert(ms@.take(ms@.len() as int) =~= ms@);
                }
                r
            },
        }
    }

    /// Appends the markers spawned for `gltf`.
    pub fn add_markers(&mut self, gltf: ComponentId, additions: Vec<BoundsMarker>)
        ensures
            gltf_lookup(final(self).marker_table(), gltf) == Some(
                match gltf_lookup(old(self).marker_table(), gltf) {
                    Some(ms) => ms,
                    None => Seq::empty(),
                } + additions@,
            ),
            forall|k: ComponentId| k != gltf ==> #[trigger] gltf_lookup(final(self).marker_table(), k) == gltf_lookup(
                old(self).marker_table(),
                k,
            ),
            final(self).mesh_output_markers@ == old(self).mesh_output_markers@,
    {
        let ghost t = self.marker_table();
        match self.last_entry(gltf) {
            None => {
                self.markers.push(GltfMarkers { gltf, markers: additions });
                proof {
                    assert(self.marker_table() =~= t.push((gltf, additions@)));
                    assert(self.marker_table().drop_last() =~= t);
                    assert(Seq::<BoundsMarker>::empty() + additions@ =~= additions@);
                }
            },
            Some(i) => {
                proof {
                    lemma_lookup_last_entry(t, i as int);
                }
                let entry = self.markers.remove(i);
                let GltfMarkers { gltf: g, markers: mut ms } = entry;
                let ghost old_ms = ms@;
                let mut k: usize = 0;
                while k < additions.len()
                    invariant
                        k <= additions@.len(),
                        ms@ == old_ms + additions@.take(k as int),
                    decreases additions@.len() - k,
                {
                    ms.push(additions[k]);
                    k += 1;
                    proof {
                        assert(ms@ =~= old_ms + additions@.take(k as int));
                    }
                }
                proof {
                    assert(additions@.take(additions@.len() as int) =~= additions@);
                }
                self.markers.insert(i, GltfMarkers { gltf: g, markers: ms });
                proof {
                    assert(self.marker_table() =~= t.update(i as int, (t[i as int].0, old_ms + additions@)));
                    assert forall|k: ComponentId| true implies #[trigger] gltf_lookup(self.marker_table(), k) == (if k
                        == gltf {
                        Some(old_ms + additions@)
                    } else {
                        gltf_lookup(t, k)
                    }) by {
                        lemma_lookup_update_last(t, i as int, old_ms + additions@, k);
                    }
                }
            },
        }
    }

    /// Takes the markers of `gltf` off the table and answers their roots,
    /// whose subtrees the caller removes.
    pub fn remove_markers(&mut self, gltf: ComponentId) -> (roots: Vec<ComponentId>)
        ensures
            roots@ == match gltf_lookup(old(self).marker_table(), gltf) {
                Some(ms) => marker_roots(ms),
                None => Seq::empty(),
            },
            gltf_lookup(old(self).marker_table(), gltf) is Some ==> gltf_lookup(final(self).marker_table(), gltf)
                == Some(Seq::<BoundsMarker>::empty()),
            gltf_lookup(old(self).marker_table(), gltf) is None ==> final(self).marker_table() == old(
                self,
            ).marker_table(),
            forall|k: ComponentId| k != gltf ==> #[trigger] gltf_lookup(final(self).marker_table(), k) == gltf_lookup(
                old(self).marker_table(),
                k,
            ),
            final(self).mesh_output_markers@ == old(self).mesh_output_markers@,
    {
        let ghost t = self.marker_table();
        match self.last_entry(gltf) {
            None => Vec::new(),
            Some(i) => {
                proof {
                    lemma_lookup_last_entry(t, i as int);
                }
                let entry = self.markers.remove(i);
                let GltfMarkers { gltf: g, markers: ms } = entry;
                let mut roots: Vec<ComponentId> = Vec::new();
                let mut k: usize = 0;
                while k < ms.len()
                    invariant
                        k <= ms@.len(),
                        roots@ == marker_roots(ms@.take(k as int)),
                    decreases ms@.len() - k,
                {
                    roots.push(ms[k].root);
                    k += 1;
                    proof {
                        assert(marker_roots(ms@.take(k as int)) =~= marker_roots(ms@.take(k - 1)).push(ms@[k - 1].root));
                    }
                }
                proof {
                    assert(ms@.take(ms@.len() as int) =~= ms@);
                }
                self.markers.insert(i, GltfMarkers { gltf: g, markers: Vec::new() });
                proof {
                    assert(self.marker_table() =~= t.update(i as int, (t[i as int].0, Seq::<BoundsMarker>::empty())));
                    assert forall|k: ComponentId| true implies #[trigger] gltf_lookup(self.marker_table(), k) == (if k
                        == gltf {
                        Some(Seq::<BoundsMarker>::empty())
                    } else {
                        gltf_lookup(t, k)
                    }) by {
                        lemma_lookup_update_last(t, i as int, Seq::<BoundsMarker>::empty(), k);
                    }
                }
                roots
            },
        }
    }

    /// Reconciles the mesh-output markers; see [`sync_mesh_output_markers`].
    pub fn sync_mesh_output_markers(&mut self, world: &World, outputs: &Vec<MeshOutput>, visible: bool) -> (plan: MarkerSync)
        ensures
            visible ==> final(self).mesh_output_markers@ == kept_markers(world, outputs@, old(self).mesh_output_markers@),
            !visible ==> final(self).mesh_output_markers@.len() == 0,
            visible ==> plan.remove_roots@ == stale_roots(world, outputs@, old(self).mesh_output_markers@),
            !visible ==> plan.remove_roots@ == stale_roots(world, outputs@, old(self).mesh_output_markers@)
                + marker_roots(kept_markers(world, outputs@, old(self).mesh_output_markers@)),
            visible ==> plan.spawn_for@ == spawn_owners(
                world,
                kept_markers(world, outputs@, old(self).mesh_output_markers@),
                outputs@,
            ),
            !visible ==> plan.spawn_for@.len() == 0,
            final(self).marker_table() == old(self).marker_table(),
    {
        sync_mesh_output_markers(&mut self.mesh_output_markers, world, outputs, visible)
    }

    /// Records the marker subtree spawned at `root` for the output `owner`.
    pub fn register_mesh_output_marker(&mut self, owner: ComponentId, root: ComponentId)
        ensures
            final(self).mesh_output_markers@ == without_target(old(self).mesh_output_markers@, owner).push(
                BoundsMarker { target: owner, root },
            ),
            final(self).marker_table() == old(self).marker_table(),
    {
        put_marker(&mut self.mesh_output_markers, BoundsMarker { target: owner, root });
    }
}

proof fn lemma_lookup_absent(t: Seq<(ComponentId, Seq<BoundsMarker>)>, n: int, g: ComponentId)
    requires
        0 <= n <= t.len(),
        forall|j: int| 0 <= j < t.len() ==> #[trigger] t[j].0 != g,
    ensures
        gltf_lookup(t.take(n), g) is None,
    decreases n,
{
    if n > 0 {
        assert(t.take(n).drop_last() =~= t.take(n - 1));
        lemma_lookup_absent(t, n - 1, g);
    }
}

proof fn lemma_lookup_last_entry(t: Seq<(ComponentId, Seq<BoundsMarker>)>, i: int)
    requires
        0 <= i < t.len(),
        forall|j: int| i < j < t.len() ==> #[trigger] t[j].0 != t[i].0,
    ensures
        gltf_lookup(t, t[i].0) == Some(t[i].1),
    decreases t.len(),
{
    if i < t.len() - 1 {
        assert forall|j: int| i < j < t.drop_last().len() implies #[trigger] t.drop_last()[j].0 != t.drop_last()[i].0 by {
            assert(t.drop_last()[j] == t[j]);
        }
        lemma_lookup_last_entry(t.drop_last(), i);
    }
}

/// Every marker a reconciliation keeps is fresh: its owner qualifies and its
/// root and target are live.
pub proof fn kept_markers_are_fresh(w: &World, outputs: Seq<MeshOutput>, ms: Seq<BoundsMarker>)
    ensures
        forall|i: int|
            0 <= i < kept_markers(w, outputs, ms).len() ==> !marker_stale(w, outputs, #[trigger] kept_markers(w, outputs, ms)[i]),
    decreases ms.len(),
{
    if ms.len() > 0 {
        kept_markers_are_fresh(w, outputs, ms.drop_last());
        let rest = kept_markers(w, outputs, ms.drop_last());
        if !marker_stale(w, outputs, ms.last()) {
            assert forall|i: int| 0 <= i < rest.push(ms.last()).len() implies !marker_stale(
                w,
                outputs,
                #[trigger] rest.push(ms.last())[i],
            ) by {
                if i < rest.len() {
                    assert(rest.push(ms.last())[i] == rest[i]);
                }
            }
        }
    }
}

proof fn lemma_fresh_markers_survive(w: &World, outputs: Seq<MeshOutput>, ms: Seq<BoundsMarker>)
    requires
        forall|i: int| 0 <= i < ms.len() ==> !marker_stale(w, outputs, #[trigger] ms[i]),
    ensures
        kept_markers(w, outputs, ms) == ms,
        stale_roots(w, outputs, ms) == Seq::<ComponentId>::empty(),
    decreases ms.len(),
{
    if ms.len() > 0 {
        assert forall|i: int| 0 <= i < ms.drop_last().len() implies !marker_stale(w, outputs, #[trigger] ms.drop_last()[i]) by {
            assert(ms.drop_last()[i] == ms[i]);
        }
        lemma_fresh_markers_survive(w, outputs, ms.drop_last());
        assert(!marker_stale(w, outputs, ms[ms.len() - 1]));
        assert(ms.drop_last().push(ms.last()) =~= ms);
    }
}

/// Reconciling again against the same world and outputs removes nothing
/// and keeps every marker.
pub proof fn resync_removes_nothing(w: &World, outputs: Seq<MeshOutput>, ms: Seq<BoundsMarker>)
    ensures
        kept_markers(w, outputs, kept_markers(w, outputs, ms)) == kept_markers(w, outputs, ms),
        stale_roots(w, outputs, kept_markers(w, outputs, ms)) == Seq::<ComponentId>::empty(),
{
    kept_markers_are_fresh(w, outputs, ms);
    lemma_fresh_markers_survive(w, outputs, kept_markers(w, outputs, ms));
}

/// The owners listed for spawning are live, qualifying, without a kept
/// marker, and listed once each.
pub proof fn spawned_owners_are_new_and_distinct(w: &World, kept: Seq<BoundsMarker>, outs: Seq<MeshOutput>)
    ensures
        forall|i: int|
            0 <= i < spawn_owners(w, kept, outs).len() ==> {
                let o = #[trigger] spawn_owners(w, kept, outs)[i];
                &&& w.live(o)
                &&& owner_qualifies(w, outs, o)
                &&& !has_marker(kept, o)
            },
        forall|i: int, j: int|
            0 <= i < j < spawn_owners(w, kept, outs).len() ==> #[trigger] spawn_owners(w, kept, outs)[i]
                != #[trigger] spawn_owners(w, kept, outs)[j],
    decreases outs.len(),
{
    if outs.len() > 0 {
        let prev = spawn_owners(w, kept, outs.drop_last());
        spawned_owners_are_new_and_distinct(w, kept, outs.drop_last());
        let o = outs.last();
        assert forall|x: ComponentId| owner_qualifies(w, outs.drop_last(), x) implies owner_qualifies(w, outs, x) by {
            let q = choose|q: int| 0 <= q < outs.drop_last().len() && #[trigger] outs.drop_last()[q].owner == x
                && output_qualifies(w, outs.drop_last()[q]);
            assert(outs[q] == outs.drop_last()[q]);
        }
        if output_qualifies(w, o) && w.live(o.owner) && !has_marker(kept, o.owner) && !prev.contains(o.owner) {
            let s = prev.push(o.owner);
            assert(outs[outs.len() - 1] == o);
            assert forall|i: int| 0 <= i < s.len() implies {
                let x = #[trigger] s[i];
                &&& w.live(x)
                &&& owner_qualifies(w, outs, x)
                &&& !has_marker(kept, x)
            } by {
                if i < prev.len() {
                    assert(s[i] == prev[i]);
                }
            }
            assert forall|i: int, j: int| 0 <= i < j < s.len() implies #[trigger] s[i] != #[trigger] s[j] by {
                if j == prev.len() {
                    assert(s[i] == prev[i]);
                    assert(!prev.contains(o.owner));
                } else {
                    assert(s[i] == prev[i]);
                    assert(s[j] == prev[j]);
                }
            }
        }
    }
}

} // verus!
