//! The bookkeeping of humanoid bone-map resolution: which authored maps
//! exist, which armatures were asked for implicitly, each armature's report
//! generation, and what a resolution of one armature has to do.
use vstd::prelude::*;
use crate::components::Component;
use crate::humanoid_map::{bump_generation, next_generation};
use crate::ids::ComponentId;
use crate::world::{contains_id, World};

verus! {

/// The nearest glTF import at or above `id`, looking at most `fuel` components.
pub open spec fn nearest_gltf_within(w: &World, id: ComponentId, fuel: nat) -> Option<ComponentId>
    decreases fuel,
{
    if fuel == 0 {
        None
    } else if w.component_spec(id) matches Some(Component::Gltf(_)) {
        Some(id)
    } else {
        match w.parent_spec(id) {
            None => None,
            Some(p) => nearest_gltf_within(w, p, (fuel - 1) as nat),
        }
    }
}

/// The glTF import that owns `id`: the nearest at or above it, within 128 levels.
pub open spec fn nearest_gltf_spec(w: &World, id: ComponentId) -> Option<ComponentId> {
    nearest_gltf_within(w, id, 128)
}

/// The glTF import that owns `id`.
pub fn nearest_gltf(world: &World, id: ComponentId) -> (r: Option<ComponentId>)
    ensures
        r == nearest_gltf_spec(world, id),
{
    let mut current = id;
    let mut k: u64 = 0;
    while k < 128
        invariant
            k <= 128,
            nearest_gltf_spec(world, id) == nearest_gltf_within(world, current, (128 - k) as nat),
        decreases 128 - k,
    {
        match world.component(current) {
            Some(Component::Gltf(_)) => {
                return Some(current);
            },
            _ => {},
        }
        match world.parent_of(current) {
            None => {
                return None;
            },
            Some(p) => {
                current = p;
            },
        }
        k += 1;
    }
    None
}

/// What a resolution of one armature does.
#[derive(Debug, Clone, Copy, PartialEq, Eq, Structural)]
pub enum ResolvePlan {
    /// Several authored maps belong to the armature: its report is the
    /// conflict report of `generation`.
    Conflict { generation: u64 },
    /// Nothing asks for a report, or the armature is not a glTF import.
    Skip,
    /// Build the report of `generation` from the map `source` (the default
    /// map when none).
    Build { source: Option<ComponentId>, generation: u64 },
}

/// The registry's state: authored maps, implicit requests, the armatures
/// that have a report, and each armature's generation.
pub struct BoneMapRegistry {
    pub sources: Vec<ComponentId>,
    pub implicit_requests: Vec<ComponentId>,
    pub reported: Vec<ComponentId>,
    pub generations: Vec<(ComponentId, u64)>,
}

/// The generation recorded for `gltf` (0 when none), the first entry winning.
pub open spec fn generation_of(g: Seq<(ComponentId, u64)>, gltf: ComponentId) -> u64
    decreases g.len(),
{
    if g.len() == 0 {
        0
    } else if g[0].0 == gltf {
        g[0].1
    } else {
        generation_of(g.drop_first(), gltf)
    }
}

pub open spec fn owned_by(w: &World, gltf: ComponentId) -> spec_fn(ComponentId) -> bool {
    |s: ComponentId| nearest_gltf_spec(w, s) == Some(gltf)
}

/// The plan for resolving `gltf`, given the maps that belong to it, whether
/// anything else asks for its report, and its new generation.
pub open spec fn plan_spec(w: &World, owned: Seq<ComponentId>, requested: bool, gltf: ComponentId, generation: u64) -> ResolvePlan {
    if owned.len() > 1 {
        ResolvePlan::Conflict { generation }
    } else if owned.len() == 0 && !requested {
        ResolvePlan::Skip
    } else if !(w.component_spec(gltf) matches Some(Component::Gltf(_))) {
        ResolvePlan::Skip
    } else {
        ResolvePlan::Build { source: if owned.len() == 1 { Some(owned[0]) } else { None }, generation }
    }
}

impl BoneMapRegistry {
    /// Nothing registered.
    pub fn new() -> (r: Self)
        ensures
            r.sources@.len() == 0,
            r.implicit_requests@.len() == 0,
            r.reported@.len() == 0,
            r.generations@.len() == 0,
    {
        BoneMapRegistry { sources: Vec::new(), implicit_requests: Vec::new(), reported: Vec::new(), generations: Vec::new() }
    }

    fn generation(&self, gltf: ComponentId) -> (r: u64)
        ensures
            r == generation_of(self.generations@, gltf),
    {
        let mut i: usize = 0;
        proof {
            assert(self.generations@.subrange(0, self.generations@.len() as int) =~= self.generations@);
        }
        while i < self.generations.len()
            invariant
                i <= self.generations@.len(),
                generation_of(self.generations@, gltf) == generation_of(self.generations@.subrange(i as int, self.generations@.len() as int), gltf),
            decreases self.generations@.len() - i,
        {
            let ghost rest = self.generations@.subrange(i as int, self.generations@.len() as int);
            proof {
                assert(rest[0] == self.generations@[i as int]);
                assert(rest.drop_first() =~= self.generations@.subrange(i + 1, self.generations@.len() as int));
            }
            if self.generations[i].0 == gltf {
                return self.generations[i].1;
            }
            i += 1;
        }
        0
    }

    /// Starts a new generation for `gltf` and gives it back.
    pub fn bump(&mut self, gltf: ComponentId) -> (g: u64)
        ensures
            g == next_generation(generation_of(old(self).generations@, gltf)),
            generation_of(final(self).generations@, gltf) == g,
            forall|x: ComponentId| x != gltf ==> generation_of(final(self).generations@, x) == generation_of(old(self).generations@, x),
            final(self).sources@ == old(self).sources@,
            final(self).implicit_requests@ == old(self).implicit_requests@,
            final(self).reported@ == old(self).reported@,
    {
        let g = bump_generation(self.generation(gltf));
        let ghost old_g = self.generations@;
        self.generations.insert(0, (gltf, g));
        proof {
            assert(self.generations@.drop_first() =~= old_g);
        }
        g
    }

    /// The maps among `sources` that belong to `gltf`, in order.
    pub fn owned_sources(&self, world: &World, gltf: ComponentId) -> (r: Vec<ComponentId>)
        ensures
            r@ == self.sources@.filter(owned_by(world, gltf)),
    {
        let ghost pred = owned_by(world, gltf);
        let mut r: Vec<ComponentId> = Vec::new();
        let mut i: usize = 0;
        while i < self.sources.len()
            invariant
                i <= self.sources@.len(),
                pred == owned_by(world, gltf),
                r@ == self.sources@.take(i as int).filter(pred),
            decreases self.sources@.len() - i,
        {
            let s = self.sources[i];
            proof {
                assert(self.sources@.take(i + 1) =~= self.sources@.take(i as int).push(s));
                self.sources@.take(i as int).lemma_filter_push(s, pred);
            }
            if nearest_gltf(world, s) == Some(gltf) {
                r.push(s);
            }
            i += 1;
        }
        proof {
            assert(self.sources@.take(self.sources@.len() as int) =~= self.sources@);
        }
        r
    }

    /// Begins resolving `gltf`: an implicit request is remembered, the
    /// armature's generation advances, and the plan says what to build.
    /// The report is requested when the armature has an authored map, an
    /// implicit request (now or before), or a report already.
    pub fn plan_resolve(&mut self, world: &World, gltf: ComponentId, implicit_auto: bool) -> (p: ResolvePlan)
        ensures
            final(self).implicit_requests@ == if implicit_auto && !old(self).implicit_requests@.contains(gltf) {
                old(self).implicit_requests@.push(gltf)
            } else {
                old(self).implicit_requests@
            },
            final(self).sources@ == old(self).sources@,
            final(self).reported@ == old(self).reported@,
            generation_of(final(self).generations@, gltf) == next_generation(generation_of(old(self).generations@, gltf)),
            forall|x: ComponentId| x != gltf ==> generation_of(final(self).generations@, x) == generation_of(old(self).generations@, x),
            p == plan_spec(
                world,
                old(self).sources@.filter(owned_by(world, gltf)),
                implicit_auto || old(self).implicit_requests@.contains(gltf) || old(self).reported@.contains(gltf),
                gltf,
                next_generation(generation_of(old(self).generations@, gltf)),
            ),
    {
        let already = contains_id(&self.implicit_requests, gltf);
        if implicit_auto && !already {
            self.implicit_requests.push(gltf);
        }
        let generation = self.bump(gltf);
        let owned = self.owned_sources(world, gltf);
        if owned.len() > 1 {
            return ResolvePlan::Conflict { generation };
        }
        let requested = implicit_auto || already || contains_id(&self.reported, gltf);
        if owned.len() == 0 && !requested {
            return ResolvePlan::Skip;
        }
        match world.component(gltf) {
            Some(Component::Gltf(_)) => {},
            _ => {
                return ResolvePlan::Skip;
            },
        }
        let source = if owned.len() == 1 { Some(owned[0]) } else { None };
        ResolvePlan::Build { source, generation }
    }

    /// Records that `gltf` now has a stored report.
    pub fn mark_reported(&mut self, gltf: ComponentId)
        ensures
            final(self).reported@ == if old(self).reported@.contains(gltf) { old(self).reported@ } else { old(self).reported@.push(gltf) },
            final(self).sources@ == old(self).sources@,
            final(self).implicit_requests@ == old(self).implicit_requests@,
            final(self).generations@ == old(self).generations@,
    {
        if !contains_id(&self.reported, gltf) {
            self.reported.push(gltf);
        }
    }

    /// Registers an authored map; gives back the armature to resolve, if it
    /// has one.
    pub fn register_component(&mut self, world: &World, source: ComponentId) -> (owner: Option<ComponentId>)
        ensures
            final(self).sources@ == if old(self).sources@.contains(source) { old(self).sources@ } else { old(self).sources@.push(source) },
            owner == nearest_gltf_spec(world, source),
            final(self).implicit_requests@ == old(self).implicit_requests@,
            final(self).reported@ == old(self).reported@,
            final(self).generations@ == old(self).generations@,
    {
        if !contains_id(&self.sources, source) {
            self.sources.push(source);
        }
        nearest_gltf(world, source)
    }
}

} // verus!
