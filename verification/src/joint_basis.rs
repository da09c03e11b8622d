//! The registry of joint retargeting bases: which declaration defines the
//! basis of which armature joint, which definitions conflict, and which
//! bases are published under which generation.
//!
//! The axes themselves are computed from rest poses outside this registry:
//! every change that calls for a basis yields a [`BasisRequest`], and the
//! outcome is handed back to [`JointBasisRetargetingSystem::complete_basis`],
//! which applies it only while the request is still current.
use vstd::prelude::*;
use crate::components::{Component, ComponentRef, JointRetargetBasisComponent};
use crate::humanoid::{increasing, insert_sorted};
use crate::id_map::IdMap;
use crate::ids::ComponentId;
use crate::query::{ref_pred, ref_surface};
use crate::world::World;

verus! {

/// A direction between two joints' rest positions.
#[derive(Debug, Clone, Copy, PartialEq, Eq, Hash, Structural)]
pub struct LandmarkDirection {
    pub start: ComponentId,
    pub end: ComponentId,
}

/// The joints that define a target joint's basis: the target, and the
/// forward and up landmark directions.
#[derive(Debug, Clone, Copy, PartialEq, Eq, Hash, Structural)]
pub struct RetargetBasisDefinition {
    pub target: ComponentId,
    pub forward: LandmarkDirection,
    pub up: LandmarkDirection,
}

/// Where a basis came from.
#[derive(Debug, Clone, PartialEq, Eq)]
pub struct RetargetBasisProvenance {
    pub source: ComponentId,
    pub source_label: String,
    pub owning_gltf: ComponentId,
}

/// The state of one basis declaration.
#[derive(Debug, Clone, PartialEq, Eq)]
pub enum RetargetBasisStatus {
    WaitingForGltf,
    Ready,
    Invalid(String),
    ConflictingDefinition { sources: Vec<ComponentId> },
}

/// One declaration as diagnostics show it.
#[derive(Debug, Clone, PartialEq, Eq)]
pub struct RetargetBasisDiagnosticSnapshot {
    pub source: ComponentId,
    pub target: Option<ComponentId>,
    pub owning_gltf: Option<ComponentId>,
    pub status: RetargetBasisStatus,
}

/// A published basis: its target, the generation it was computed for, and
/// the declaration it came from.
#[derive(Debug, Clone, PartialEq, Eq)]
pub struct PublishedBasis {
    pub target: ComponentId,
    pub generation: u64,
    pub provenance: RetargetBasisProvenance,
}

/// A basis to compute: the definition, the generation the result will be
/// published under, and the declaration that asks for it.
#[derive(Debug, Clone, PartialEq, Eq)]
pub struct BasisRequest {
    pub target: ComponentId,
    pub generation: u64,
    pub definition: RetargetBasisDefinition,
    pub provenance: RetargetBasisProvenance,
}

#[derive(Debug)]
struct SourceEntry {
    owner: Option<ComponentId>,
    definition: Option<RetargetBasisDefinition>,
    status: RetargetBasisStatus,
    label: String,
}

/// A status as the model sees it; a conflict is the set of declarations
/// that define the same target.
pub enum StatusView {
    WaitingForGltf,
    Ready,
    Invalid(Seq<char>),
    Conflicting(Set<ComponentId>),
}

pub open spec fn status_view(s: RetargetBasisStatus) -> StatusView {
    match s {
        RetargetBasisStatus::WaitingForGltf => StatusView::WaitingForGltf,
        RetargetBasisStatus::Ready => StatusView::Ready,
        RetargetBasisStatus::Invalid(m) => StatusView::Invalid(m@),
        RetargetBasisStatus::ConflictingDefinition { sources } => StatusView::Conflicting(sources@.to_set()),
    }
}

/// A stored conflict lists its declarations in identity order.
pub open spec fn sorted_status(s: RetargetBasisStatus) -> bool {
    s matches RetargetBasisStatus::ConflictingDefinition { sources } ==> increasing(sources@)
}

/// One declaration in the model.
pub struct SourceView {
    pub owner: Option<ComponentId>,
    pub definition: Option<RetargetBasisDefinition>,
    pub status: StatusView,
    pub label: Seq<char>,
}

/// One publication in the model.
pub struct PublishedView {
    pub source: ComponentId,
    pub owner: ComponentId,
    pub label: Seq<char>,
    pub generation: u64,
}

/// The registry as a model: declarations by source, publications by
/// target, and the last generation issued for each target.
pub struct RegistryModel {
    pub entries: Map<ComponentId, SourceView>,
    pub published: Map<ComponentId, PublishedView>,
    pub generations: Map<ComponentId, u64>,
}

/// A request as the model sees it.
pub struct RequestView {
    pub target: ComponentId,
    pub generation: u64,
    pub definition: RetargetBasisDefinition,
    pub source: ComponentId,
    pub owner: ComponentId,
    pub label: Seq<char>,
}

pub open spec fn request_view(r: BasisRequest) -> RequestView {
    RequestView {
        target: r.target,
        generation: r.generation,
        definition: r.definition,
        source: r.provenance.source,
        owner: r.provenance.owning_gltf,
        label: r.provenance.source_label@,
    }
}

pub open spec fn request_views(rs: Seq<BasisRequest>) -> Seq<RequestView> {
    rs.map_values(|r: BasisRequest| request_view(r))
}

pub open spec fn published_view(p: PublishedBasis) -> PublishedView {
    PublishedView {
        source: p.provenance.source,
        owner: p.provenance.owning_gltf,
        label: p.provenance.source_label@,
        generation: p.generation,
    }
}

spec fn source_view(e: SourceEntry) -> SourceView {
    SourceView { owner: e.owner, definition: e.definition, status: status_view(e.status), label: e.label@ }
}

/// The five joints a definition names.
pub open spec fn members(d: RetargetBasisDefinition) -> Seq<ComponentId> {
    seq![d.target, d.forward.start, d.forward.end, d.up.start, d.up.end]
}

/// A declaration takes part in resolution when it has both an owning
/// armature and a definition.
pub open spec fn indexed(e: SourceView) -> bool {
    e.owner is Some && e.definition is Some
}

/// The declarations that define `t`.
pub open spec fn target_sources(m: RegistryModel, t: ComponentId) -> Set<ComponentId> {
    m.entries.dom().filter(|s: ComponentId| indexed(m.entries[s]) && m.entries[s].definition.unwrap().target == t)
}

/// The declarations owned by armature `o`.
pub open spec fn owner_sources(m: RegistryModel, o: ComponentId) -> Set<ComponentId> {
    m.entries.dom().filter(|s: ComponentId| m.entries[s].owner == Some(o))
}

/// The declarations whose definition names joint `c`.
pub open spec fn dependency_sources(m: RegistryModel, c: ComponentId) -> Set<ComponentId> {
    m.entries.dom().filter(|s: ComponentId| indexed(m.entries[s]) && members(m.entries[s].definition.unwrap()).contains(c))
}

/// The last generation issued for `t`; zero before the first.
pub open spec fn generation_of(m: RegistryModel, t: ComponentId) -> u64 {
    if m.generations.contains_key(t) {
        m.generations[t]
    } else {
        0
    }
}

/// One more, stopping at the largest value.
pub open spec fn saturating_next(g: u64) -> u64 {
    if g == u64::MAX {
        g
    } else {
        (g + 1) as u64
    }
}

/// Every publication belongs to the one declaration that defines its
/// target, which is ready and was published under the target's current
/// generation.
pub open spec fn publications_consistent(m: RegistryModel) -> bool {
    forall|t: ComponentId| #[trigger] m.published.contains_key(t) ==> {
        let p = m.published[t];
        &&& target_sources(m, t) == set![p.source]
        &&& m.entries[p.source].status == StatusView::Ready
        &&& m.entries[p.source].owner == Some(p.owner)
        &&& m.entries[p.source].label == p.label
        &&& generation_of(m, t) == p.generation
    }
}

pub open spec fn with_entries(m: RegistryModel, e: Map<ComponentId, SourceView>) -> RegistryModel {
    RegistryModel { entries: e, published: m.published, generations: m.generations }
}

pub open spec fn with_published(m: RegistryModel, p: Map<ComponentId, PublishedView>) -> RegistryModel {
    RegistryModel { entries: m.entries, published: p, generations: m.generations }
}

pub open spec fn with_generations(m: RegistryModel, g: Map<ComponentId, u64>) -> RegistryModel {
    RegistryModel { entries: m.entries, published: m.published, generations: g }
}

/// Takes down the publication of the target that `s` defines, if it has a
/// definition.
pub open spec fn unindex(m: RegistryModel, s: ComponentId) -> RegistryModel {
    if m.entries.contains_key(s) && m.entries[s].definition is Some {
        with_published(m, m.published.remove(m.entries[s].definition.unwrap().target))
    } else {
        m
    }
}

/// Resolves target `t` afresh: its publication is taken down; two or more
/// declarations conflict; a lone declaration gets the next generation and a
/// request for its basis.
pub open spec fn reconcile(m: RegistryModel, t: ComponentId) -> (RegistryModel, Seq<RequestView>) {
    let srcs = target_sources(m, t);
    let m1 = with_published(m, m.published.remove(t));
    if srcs.len() > 1 {
        (
            with_entries(
                m1,
                Map::new(
                    |s: ComponentId| m.entries.contains_key(s),
                    |s: ComponentId| if srcs.contains(s) {
                        SourceView {
                            owner: m.entries[s].owner,
                            definition: m.entries[s].definition,
                            status: StatusView::Conflicting(srcs),
                            label: m.entries[s].label,
                        }
                    } else {
                        m.entries[s]
                    },
                ),
            ),
            seq![],
        )
    } else if srcs.len() == 1 {
        let s = srcs.choose();
        let e = m.entries[s];
        let g = saturating_next(generation_of(m, t));
        (
            with_generations(m1, m.generations.insert(t, g)),
            seq![RequestView { target: t, generation: g, definition: e.definition.unwrap(), source: s, owner: e.owner.unwrap(), label: e.label }],
        )
    } else {
        (m1, seq![])
    }
}

/// Whether request `r` still describes the one declaration of its target,
/// under the target's current generation.
pub open spec fn request_current(m: RegistryModel, r: RequestView) -> bool {
    &&& target_sources(m, r.target) == set![r.source]
    &&& m.entries[r.source].owner == Some(r.owner)
    &&& m.entries[r.source].definition == Some(r.definition)
    &&& m.entries[r.source].label == r.label
    &&& generation_of(m, r.target) == r.generation
}

/// Applies the outcome of request `r`: when it is current, a computed
/// basis is published and its declaration is ready, and a failure makes the
/// declaration invalid and leaves the target unpublished; a stale request
/// changes nothing.
pub open spec fn complete(m: RegistryModel, r: RequestView, outcome: Result<(), Seq<char>>) -> RegistryModel {
    if !request_current(m, r) {
        m
    } else {
        let e = m.entries[r.source];
        match outcome {
            Ok(_) => RegistryModel {
                entries: m.entries.insert(
                    r.source,
                    SourceView { owner: e.owner, definition: e.definition, status: StatusView::Ready, label: e.label },
                ),
                published: m.published.insert(
                    r.target,
                    PublishedView { source: r.source, owner: r.owner, label: r.label, generation: r.generation },
                ),
                generations: m.generations,
            },
            Err(msg) => RegistryModel {
                entries: m.entries.insert(
                    r.source,
                    SourceView { owner: e.owner, definition: e.definition, status: StatusView::Invalid(msg), label: e.label },
                ),
                published: m.published.remove(r.target),
                generations: m.generations,
            },
        }
    }
}

/// Keeps every declaration of a joint's retargeting basis, resolves their
/// conflicts and publishes one basis per target joint.
#[derive(Debug)]
pub struct JointBasisRetargetingSystem {
    sources: IdMap<SourceEntry>,
    published: IdMap<PublishedBasis>,
    generations: IdMap<u64>,
}

impl JointBasisRetargetingSystem {
    /// The registry as a model.
    pub closed spec fn model(&self) -> RegistryModel {
        RegistryModel {
            entries: self.sources.map().map_values(|e: SourceEntry| source_view(e)),
            published: self.published.map().map_values(|p: PublishedBasis| published_view(p)),
            generations: self.generations.map(),
        }
    }

    /// The stores are well formed, stored conflicts are in identity order,
    /// each publication is filed under its own target, and publications are
    /// consistent with the declarations.
    pub closed spec fn wf(&self) -> bool {
        &&& self.sources.wf()
        &&& self.published.wf()
        &&& self.generations.wf()
        &&& forall|s: ComponentId| #[trigger] self.sources.map().contains_key(s) ==> sorted_status(self.sources.map()[s].status)
        &&& forall|t: ComponentId| #[trigger] self.published.map().contains_key(t) ==> self.published.map()[t].target == t
        &&& publications_consistent(self.model())
    }

    /// The declarations held are finitely many.
    pub proof fn lemma_finite(&self)
        requires
            self.wf(),
        ensures
            self.model().entries.dom().finite(),
    {
        self.sources.lemma_keys();
        assert(self.model().entries.dom() =~= self.sources.map().dom());
    }

    /// An empty registry.
    pub fn new() -> (r: Self)
        ensures
            r.wf(),
            r.model().entries == Map::<ComponentId, SourceView>::empty(),
            r.model().published == Map::<ComponentId, PublishedView>::empty(),
            r.model().generations == Map::<ComponentId, u64>::empty(),
    {
        let r = JointBasisRetargetingSystem { sources: IdMap::new(), published: IdMap::new(), generations: IdMap::new() };
        assert(r.model().entries =~= Map::<ComponentId, SourceView>::empty());
        assert(r.model().published =~= Map::<ComponentId, PublishedView>::empty());
        r
    }

    /// The basis published for `target`.
    pub fn basis_for(&self, target: ComponentId) -> (r: Option<&PublishedBasis>)
        requires
            self.wf(),
        ensures
            match r {
                Some(p) => self.model().published.contains_key(target) && self.model().published[target] == published_view(*p)
                    && p.target == target,
                None => !self.model().published.contains_key(target),
            },
    {
        self.published.get(target)
    }

    /// The state of the declaration `source`.
    pub fn status_for_source(&self, source: ComponentId) -> (r: Option<RetargetBasisStatus>)
        requires
            self.wf(),
        ensures
            match r {
                Some(st) => self.model().entries.contains_key(source) && status_view(st) == self.model().entries[source].status
                    && sorted_status(st),
                None => !self.model().entries.contains_key(source),
            },
    {
        match self.sources.get(source) {
            Some(e) => Some(clone_status(&e.status)),
            None => None,
        }
    }
}

/// A copy of `s`.
fn clone_status(s: &RetargetBasisStatus) -> (r: RetargetBasisStatus)
    ensures
        status_view(r) == status_view(*s),
        sorted_status(*s) ==> sorted_status(r),
{
    match s {
        RetargetBasisStatus::WaitingForGltf => RetargetBasisStatus::WaitingForGltf,
        RetargetBasisStatus::Ready => RetargetBasisStatus::Ready,
        RetargetBasisStatus::Invalid(m) => RetargetBasisStatus::Invalid(m.clone()),
        RetargetBasisStatus::ConflictingDefinition { sources } => RetargetBasisStatus::ConflictingDefinition {
            sources: crate::world::copy_ids(sources),
        },
    }
}

/// `m` with declaration `s` replaced by `e`, the publication of its old
/// definition's target taken down.
pub open spec fn set_entry(m: RegistryModel, s: ComponentId, e: SourceView) -> RegistryModel {
    let m0 = unindex(m, s);
    with_entries(m0, m0.entries.insert(s, e))
}

/// `set_entry`, with the publication of the new definition's target taken
/// down as well when the declaration takes part in resolution.
pub open spec fn place(m: RegistryModel, s: ComponentId, e: SourceView) -> RegistryModel {
    let m1 = set_entry(m, s, e);
    if indexed(e) {
        with_published(m1, m1.published.remove(e.definition.unwrap().target))
    } else {
        m1
    }
}

proof fn lemma_in_target_sources(m: RegistryModel, t: ComponentId, s: ComponentId)
    ensures
        target_sources(m, t).contains(s) <==> m.entries.contains_key(s) && indexed(m.entries[s])
            && m.entries[s].definition.unwrap().target == t,
{
}

/// Taking a publication down keeps publications consistent.
proof fn lemma_unpublish_consistent(m: RegistryModel, t: ComponentId)
    requires
        publications_consistent(m),
    ensures
        publications_consistent(with_published(m, m.published.remove(t))),
{
    let m1 = with_published(m, m.published.remove(t));
    assert forall|u: ComponentId| #[trigger] m1.published.contains_key(u) implies {
        let p = m1.published[u];
        &&& target_sources(m1, u) == set![p.source]
        &&& m1.entries[p.source].status == StatusView::Ready
        &&& m1.entries[p.source].owner == Some(p.owner)
        &&& m1.entries[p.source].label == p.label
        &&& generation_of(m1, u) == p.generation
    } by {
        assert(m.published.contains_key(u));
        assert(target_sources(m1, u) =~= target_sources(m, u));
    }
}

proof fn lemma_place_consistent(m: RegistryModel, s: ComponentId, e: SourceView)
    requires
        publications_consistent(m),
    ensures
        publications_consistent(place(m, s, e)),
        forall|t: ComponentId| #[trigger] place(m, s, e).published.contains_key(t) ==> place(m, s, e).published[t].source != s,
{
    let m0 = unindex(m, s);
    if m.entries.contains_key(s) && m.entries[s].definition is Some {
        lemma_unpublish_consistent(m, m.entries[s].definition.unwrap().target);
    }
    let m1 = place(m, s, e);
    assert forall|t: ComponentId| #[trigger] m1.published.contains_key(t) implies m1.published[t].source != s && {
        let p = m1.published[t];
        &&& target_sources(m1, t) == set![p.source]
        &&& m1.entries[p.source].status == StatusView::Ready
        &&& m1.entries[p.source].owner == Some(p.owner)
        &&& m1.entries[p.source].label == p.label
        &&& generation_of(m1, t) == p.generation
    } by {
        assert(m.published.contains_key(t));
        let p = m.published[t];
        assert(m1.published[t] == p);
        assert(target_sources(m, t).contains(p.source));
        lemma_in_target_sources(m, t, p.source);
        if p.source == s {
            assert(m.entries[s].definition.unwrap().target == t);
            assert(!m0.published.contains_key(t));
        }
        assert(p.source != s);
        if target_sources(m, t).contains(s) {
            assert(set![p.source].contains(s));
        }
        assert(!(indexed(e) && e.definition.unwrap().target == t));
        assert(target_sources(m1, t) =~= target_sources(m, t)) by {
            assert forall|x: ComponentId| #[trigger] target_sources(m1, t).contains(x) == target_sources(m, t).contains(x) by {
                lemma_in_target_sources(m1, t, x);
                lemma_in_target_sources(m, t, x);
            }
        }
    }
}

proof fn lemma_reconcile_consistent(m: RegistryModel, t: ComponentId)
    requires
        publications_consistent(m),
    ensures
        publications_consistent(reconcile(m, t).0),
        !reconcile(m, t).0.published.contains_key(t),
        reconcile(m, t).0.entries.dom() == m.entries.dom(),
        forall|s: ComponentId| #[trigger] m.entries.contains_key(s) ==> reconcile(m, t).0.entries[s].owner == m.entries[s].owner
            && reconcile(m, t).0.entries[s].definition == m.entries[s].definition && reconcile(m, t).0.entries[s].label
            == m.entries[s].label,
{
    let srcs = target_sources(m, t);
    let m1 = reconcile(m, t).0;
    assert(m1.entries.dom() =~= m.entries.dom());
    assert forall|u: ComponentId| #[trigger] m1.published.contains_key(u) implies {
        let p = m1.published[u];
        &&& target_sources(m1, u) == set![p.source]
        &&& m1.entries[p.source].status == StatusView::Ready
        &&& m1.entries[p.source].owner == Some(p.owner)
        &&& m1.entries[p.source].label == p.label
        &&& generation_of(m1, u) == p.generation
    } by {
        assert(u != t);
        assert(m.published.contains_key(u));
        let p = m.published[u];
        assert(target_sources(m, u).contains(p.source));
        lemma_in_target_sources(m, u, p.source);
        lemma_in_target_sources(m, t, p.source);
        assert(!srcs.contains(p.source));
        assert(target_sources(m1, u) =~= target_sources(m, u)) by {
            assert forall|x: ComponentId| #[trigger] target_sources(m1, u).contains(x) == target_sources(m, u).contains(x) by {
                lemma_in_target_sources(m1, u, x);
                lemma_in_target_sources(m, u, x);
            }
        }
    }
}

impl JointBasisRetargetingSystem {
    /// Takes down the publication of the target that `s` defines.
    fn unindex_source(&mut self, s: ComponentId)
        requires
            old(self).wf(),
        ensures
            final(self).wf(),
            final(self).model() == unindex(old(self).model(), s),
    {
        let ghost m = self.model();
        let target = match self.sources.get(s) {
            Some(e) => match e.definition {
                Some(d) => Some(d.target),
                None => None,
            },
            None => None,
        };
        if let Some(t) = target {
            self.published.remove(t);
            proof {
                assert(self.model().published =~= m.published.remove(t));
                assert(self.model() == with_published(m, m.published.remove(t)));
                lemma_unpublish_consistent(m, t);
            }
        }
    }

    /// Replaces declaration `s` by `e`.
    fn place_entry(&mut self, s: ComponentId, e: SourceEntry)
        requires
            old(self).wf(),
            sorted_status(e.status),
        ensures
            final(self).wf(),
            final(self).model() == place(old(self).model(), s, source_view(e)),
    {
        let ghost m = self.model();
        let ghost ev = source_view(e);
        self.unindex_source(s);
        let ghost m0 = self.model();
        let indexed_target = match (e.owner, e.definition) {
            (Some(_), Some(d)) => Some(d.target),
            _ => None,
        };
        self.sources.insert(s, e);
        proof {
            assert(self.model().entries =~= m0.entries.insert(s, ev));
        }
        if let Some(t) = indexed_target {
            self.published.remove(t);
            proof {
                assert(self.model().published =~= set_entry(m, s, ev).published.remove(t));
            }
        }
        proof {
            assert(self.model() == place(m, s, ev));
            lemma_place_consistent(m, s, ev);
        }
    }
}

proof fn lemma_increasing_distinct(s: Seq<ComponentId>)
    requires
        increasing(s),
    ensures
        s.no_duplicates(),
{
    assert forall|i: int, j: int| 0 <= i < s.len() && 0 <= j < s.len() && i != j implies s[i] != s[j] by {
        if i < j {
            assert(s[i].index < s[j].index);
        } else {
            assert(s[j].index < s[i].index);
        }
    }
}

/// Which declarations a scan collects.
#[derive(Clone, Copy)]
enum SourceFilter {
    Any,
    Target(ComponentId),
    Owner(ComponentId),
    Touching(ComponentId),
}

spec fn filter_holds(f: SourceFilter, e: SourceView) -> bool {
    match f {
        SourceFilter::Any => true,
        SourceFilter::Target(t) => indexed(e) && e.definition.unwrap().target == t,
        SourceFilter::Owner(o) => e.owner == Some(o),
        SourceFilter::Touching(c) => e.owner == Some(c) || (indexed(e) && members(e.definition.unwrap()).contains(c)),
    }
}

spec fn filtered(m: RegistryModel, f: SourceFilter) -> Set<ComponentId> {
    m.entries.dom().filter(|s: ComponentId| filter_holds(f, m.entries[s]))
}

/// Declaration `e` with status "conflicts with `srcs`".
pub open spec fn conflicted(e: SourceView, srcs: Set<ComponentId>) -> SourceView {
    SourceView { owner: e.owner, definition: e.definition, status: StatusView::Conflicting(srcs), label: e.label }
}

fn entry_matches(f: SourceFilter, e: &SourceEntry) -> (b: bool)
    ensures
        b == filter_holds(f, source_view(*e)),
{
    match f {
        SourceFilter::Any => true,
        SourceFilter::Target(t) => match (e.owner, e.definition) {
            (Some(_), Some(d)) => d.target == t,
            _ => false,
        },
        SourceFilter::Owner(o) => e.owner == Some(o),
        SourceFilter::Touching(c) => e.owner == Some(c) || match (e.owner, e.definition) {
            (Some(_), Some(d)) => {
                let hit = d.target == c || d.forward.start == c || d.forward.end == c || d.up.start == c || d.up.end == c;
                proof {
                    let ms = members(d);
                    if hit {
                        if d.target == c {
                            assert(ms[0] == c);
                        } else if d.forward.start == c {
                            assert(ms[1] == c);
                        } else if d.forward.end == c {
                            assert(ms[2] == c);
                        } else if d.up.start == c {
                            assert(ms[3] == c);
                        } else {
                            assert(ms[4] == c);
                        }
                    }
                }
                hit
            },
            _ => false,
        },
    }
}

impl JointBasisRetargetingSystem {
    /// The declarations that `f` selects, in identity order.
    fn collect_sources(&self, f: SourceFilter) -> (list: Vec<ComponentId>)
        requires
            self.wf(),
        ensures
            increasing(list@),
            list@.to_set() == filtered(self.model(), f),
            list@.len() == filtered(self.model(), f).len(),
            filtered(self.model(), f).finite(),
    {
        let ghost m = self.model();
        proof {
            self.sources.lemma_keys();
        }
        let mut list: Vec<ComponentId> = Vec::new();
        let mut i: usize = 0;
        let n = self.sources.len();
        while i < n
            invariant
                n == self.sources.key_seq().len(),
                i <= n,
                self.wf(),
                m == self.model(),
                forall|k: ComponentId| #[trigger] self.sources.map().contains_key(k) <==> self.sources.key_seq().contains(k),
                increasing(list@),
                forall|x: ComponentId| #[trigger] list@.contains(x) <==> self.sources.key_seq().take(i as int).contains(x)
                    && filter_holds(f, m.entries[x]),
            decreases n - i,
        {
            let k = self.sources.key_at(i);
            proof {
                assert(self.sources.key_seq().contains(k));
            }
            let hit = match self.sources.get(k) {
                Some(e) => entry_matches(f, e),
                None => false,
            };
            let ghost before = list@;
            if hit {
                insert_sorted(&mut list, k);
            }
            proof {
                let ks = self.sources.key_seq();
                assert(ks.take(i + 1) =~= ks.take(i as int).push(k));
                assert forall|x: ComponentId| #[trigger] list@.contains(x) <==> ks.take(i + 1).contains(x) && filter_holds(
                    f,
                    m.entries[x],
                ) by {
                    if ks.take(i + 1).contains(x) && x != k {
                        let q = choose|q: int| 0 <= q < i + 1 && #[trigger] ks.take(i + 1)[q] == x;
                        assert(ks.take(i as int)[q] == x);
                    }
                    if ks.take(i as int).contains(x) {
                        let q = choose|q: int| 0 <= q < i && #[trigger] ks.take(i as int)[q] == x;
                        assert(ks.take(i + 1)[q] == x);
                    }
                    assert(ks.take(i + 1)[i as int] == k);
                }
            }
            i += 1;
        }
        proof {
            let ks = self.sources.key_seq();
            assert(ks.take(n as int) =~= ks);
            assert(list@.to_set() =~= filtered(m, f));
            lemma_increasing_distinct(list@);
            list@.unique_seq_to_set();
        }
        list
    }

    /// Resolves target `t` afresh.
    fn reconcile_target(&mut self, t: ComponentId) -> (reqs: Vec<BasisRequest>)
        requires
            old(self).wf(),
        ensures
            final(self).wf(),
            final(self).model() == reconcile(old(self).model(), t).0,
            request_views(reqs@) == reconcile(old(self).model(), t).1,
    {
        let ghost m = self.model();
        let ghost srcs = target_sources(m, t);
        let list = self.collect_sources(SourceFilter::Target(t));
        proof {
            assert(filtered(m, SourceFilter::Target(t)) =~= srcs);
        }
        self.published.remove(t);
        proof {
            assert(self.model().published =~= m.published.remove(t));
            lemma_unpublish_consistent(m, t);
            lemma_reconcile_consistent(m, t);
        }
        if list.len() > 1 {
            let mut i: usize = 0;
            while i < list.len()
                invariant
                    i <= list@.len(),
                    increasing(list@),
                    list@.to_set() == srcs,
                    srcs == target_sources(m, t),
                    self.sources.wf(),
                    self.published.wf(),
                    self.generations.wf(),
                    forall|s: ComponentId| #[trigger] self.sources.map().contains_key(s) ==> sorted_status(self.sources.map()[s].status),
                    forall|u: ComponentId| #[trigger] self.published.map().contains_key(u) ==> self.published.map()[u].target == u,
                    self.model().published == m.published.remove(t),
                    self.model().generations == m.generations,
                    self.model().entries == Map::new(
                        |s: ComponentId| m.entries.contains_key(s),
                        |s: ComponentId| if list@.take(i as int).contains(s) { conflicted(m.entries[s], srcs) } else { m.entries[s] },
                    ),
                decreases list@.len() - i,
            {
                let x = list[i];
                proof {
                    assert(list@.to_set().contains(x));
                    lemma_in_target_sources(m, t, x);
                    assert(!list@.take(i as int).contains(x)) by {
                        if list@.take(i as int).contains(x) {
                            let q = choose|q: int| 0 <= q < i && #[trigger] list@.take(i as int)[q] == x;
                            assert(list@[q] == x);
                            assert(list@[q].index < list@[i as int].index);
                        }
                    }
                }
                proof {
                    assert(self.model().entries.contains_key(x));
                    assert(self.sources.map().contains_key(x));
                    assert(self.model().entries[x] == source_view(self.sources.map()[x]));
                }
                let (owner, definition, label) = match self.sources.get(x) {
                    Some(e) => (e.owner, e.definition, e.label.clone()),
                    None => (None, None, String::new()),
                };
                let entry = SourceEntry {
                    owner,
                    definition,
                    status: RetargetBasisStatus::ConflictingDefinition { sources: crate::world::copy_ids(&list) },
                    label,
                };
                let ghost before = self.model().entries;
                let ghost ev = source_view(entry);
                proof {
                    assert(before[x] == m.entries[x]);
                    assert(ev.owner == m.entries[x].owner);
                    assert(ev.definition == m.entries[x].definition);
                    assert(ev.label == m.entries[x].label);
                    assert(ev.status == StatusView::Conflicting(srcs));
                    assert(ev == conflicted(m.entries[x], srcs));
                }
                self.sources.insert(x, entry);
                proof {
                    assert(self.model().entries =~= before.insert(x, ev));
                    assert(list@.take(i + 1) =~= list@.take(i as int).push(x));
                    assert(self.model().entries =~= Map::new(
                        |s: ComponentId| m.entries.contains_key(s),
                        |s: ComponentId| if list@.take(i + 1).contains(s) { conflicted(m.entries[s], srcs) } else { m.entries[s] },
                    )) by {
                        assert forall|s: ComponentId| #[trigger] list@.take(i + 1).contains(s) == (list@.take(i as int).contains(s) || s == x) by {
                            if list@.take(i + 1).contains(s) && s != x {
                                let q = choose|q: int| 0 <= q < i + 1 && #[trigger] list@.take(i + 1)[q] == s;
                                assert(list@.take(i as int)[q] == s);
                            }
                            if list@.take(i as int).contains(s) {
                                let q = choose|q: int| 0 <= q < i && #[trigger] list@.take(i as int)[q] == s;
                                assert(list@.take(i + 1)[q] == s);
                            }
                            assert(list@.take(i + 1)[i as int] == x);
                        }
                    }
                }
                i += 1;
            }
            proof {
                assert(list@.take(list@.len() as int) =~= list@);
                assert forall|s: ComponentId| list@.contains(s) == srcs.contains(s) by {
                    assert(list@.to_set().contains(s) == list@.contains(s));
                }
                assert(self.model().entries =~= reconcile(m, t).0.entries);
                assert(self.model() == reconcile(m, t).0);
            }
            return Vec::new();
        } else if list.len() == 1 {
            let x = list[0];
            proof {
                assert(list@.to_set().contains(x));
                lemma_in_target_sources(m, t, x);
                assert(srcs =~= set![x]) by {
                    assert forall|y: ComponentId| srcs.contains(y) implies y == x by {
                        assert(list@.to_set().contains(y));
                        let q = choose|q: int| 0 <= q < list@.len() && list@[q] == y;
                        assert(q == 0);
                    }
                }
                assert(srcs.contains(srcs.choose()));
                assert(srcs.choose() == x);
            }
            let (owner, definition, label) = match self.sources.get(x) {
                Some(e) => (e.owner, e.definition, e.label.clone()),
                None => (None, None, String::new()),
            };
            let g = match self.generations.get(t) {
                Some(g) => *g,
                None => 0,
            };
            let next = if g == u64::MAX { g } else { g + 1 };
            self.generations.insert(t, next);
            proof {
                assert(self.model() == reconcile(m, t).0);
            }
            match (owner, definition) {
                (Some(o), Some(d)) => {
                    let req = BasisRequest {
                        target: t,
                        generation: next,
                        definition: d,
                        provenance: RetargetBasisProvenance { source: x, source_label: label, owning_gltf: o },
                    };
                    let reqs = vec![req];
                    proof {
                        assert(request_views(reqs@) =~= reconcile(m, t).1);
                    }
                    return reqs;
                },
                _ => {
                    return Vec::new();
                },
            }
        }
        proof {
            assert(srcs.len() == 0);
            assert(self.model() == reconcile(m, t).0);
            assert(request_views(Seq::<BasisRequest>::empty()) =~= reconcile(m, t).1);
        }
        Vec::new()
    }
}

/// Whether `c` is an imported glTF scene root.
pub open spec fn gltf_pred() -> spec_fn(Component) -> bool {
    |c: Component| c is Gltf
}

/// The nearest proper ancestor of `s` that is a glTF root, at most 64
/// levels up.
pub open spec fn nearest_gltf(w: &World, s: ComponentId) -> Option<ComponentId> {
    w.first_up(w.parent_spec(s), 64, gltf_pred())
}

/// The armature joints of glTF root `g`; none when `g` is not one.
pub open spec fn gltf_joints(w: &World, g: ComponentId) -> Seq<ComponentId> {
    match w.component_spec(g) {
        Some(Component::Gltf(c)) => c.armature_joint_transforms@,
        _ => Seq::empty(),
    }
}

/// The name of `s`; empty when it is not live.
pub open spec fn label_of(w: &World, s: ComponentId) -> Seq<char> {
    if w.live(s) {
        w.name_spec(s)
    } else {
        Seq::empty()
    }
}

/// Reference `r` resolved among `joints`: the one joint it picks, or why
/// not.
pub open spec fn resolve_ref(w: &World, joints: Seq<ComponentId>, r: ComponentRef) -> Result<ComponentId, Seq<char>> {
    let hits = joints.filter(ref_pred(w, r));
    if hits.len() == 1 {
        Ok(hits[0])
    } else {
        Err(
            "reference "@ + ref_surface(r) + " matched "@ + crate::text::decimal(hits.len())
                + " joints in the owning GLTF armature (expected exactly one)"@,
        )
    }
}

/// A declaration's five references resolved among `joints`, in order; the
/// first that fails decides the error.
pub open spec fn resolve_declaration(w: &World, joints: Seq<ComponentId>, c: JointRetargetBasisComponent) -> Result<
    RetargetBasisDefinition,
    Seq<char>,
> {
    match resolve_ref(w, joints, c.target) {
        Err(e) => Err(e),
        Ok(t) => match resolve_ref(w, joints, c.forward_start) {
            Err(e) => Err(e),
            Ok(fs) => match resolve_ref(w, joints, c.forward_end) {
                Err(e) => Err(e),
                Ok(fe) => match resolve_ref(w, joints, c.up_start) {
                    Err(e) => Err(e),
                    Ok(us) => match resolve_ref(w, joints, c.up_end) {
                        Err(e) => Err(e),
                        Ok(ue) => Ok(
                            RetargetBasisDefinition {
                                target: t,
                                forward: LandmarkDirection { start: fs, end: fe },
                                up: LandmarkDirection { start: us, end: ue },
                            },
                        ),
                    },
                },
            },
        },
    }
}

/// Whether `g` is a glTF root whose armature holds all of `d`'s joints.
pub open spec fn owns_definition(w: &World, d: RetargetBasisDefinition) -> spec_fn(ComponentId) -> bool {
    |g: ComponentId| match w.component_spec(g) {
        Some(Component::Gltf(c)) => forall|k: int| 0 <= k < 5 ==> c.armature_joint_transforms@.contains(#[trigger] members(d)[k]),
        _ => false,
    }
}

/// The first glTF root, in slot order, whose armature holds all of `d`'s
/// joints.
pub open spec fn owner_for_definition(w: &World, d: RetargetBasisDefinition) -> Option<ComponentId> {
    crate::world::first_where(w.all_ids(), owns_definition(w, d))
}

fn find_nearest_gltf(w: &World, s: ComponentId) -> (r: Option<ComponentId>)
    ensures
        r == nearest_gltf(w, s),
{
    let mut current = w.parent_of(s);
    let mut fuel: u64 = 64;
    while fuel > 0
        invariant
            fuel <= 64,
            w.first_up(current, fuel as nat, gltf_pred()) == nearest_gltf(w, s),
        decreases fuel,
    {
        match current {
            None => {
                return None;
            },
            Some(id) => {
                match w.component(id) {
                    None => {
                        return None;
                    },
                    Some(c) => {
                        if let Component::Gltf(_) = c {
                            return Some(id);
                        }
                    },
                }
                current = w.parent_of(id);
            },
        }
        fuel = fuel - 1;
    }
    None
}

fn text(a: &str) -> (r: String)
    ensures
        r@ == a@,
{
    a.to_owned()
}

/// Reference `r` resolved among `joints`.
fn resolve_in_armature(w: &World, joints: &Vec<ComponentId>, r: &ComponentRef) -> (res: Result<ComponentId, String>)
    ensures
        match res {
            Ok(id) => resolve_ref(w, joints@, *r) == Ok::<ComponentId, Seq<char>>(id),
            Err(e) => resolve_ref(w, joints@, *r) == Err::<ComponentId, Seq<char>>(e@),
        },
{
    let hits = crate::query::ref_hits(w, joints, r);
    if hits.len() == 1 {
        return Ok(hits[0]);
    }
    let mut msg = text("reference ");
    match r {
        ComponentRef::Guid(g) => {
            crate::text::push_chars(&mut msg, "@uuid:");
            crate::text::push_zero_padded(&mut msg, *g, 0);
        },
        ComponentRef::Query(q) => {
            crate::text::push_chars(&mut msg, q.as_str());
        },
    }
    crate::text::push_chars(&mut msg, " matched ");
    crate::text::push_zero_padded(&mut msg, hits.len() as u64, 0);
    crate::text::push_chars(&mut msg, " joints in the owning GLTF armature (expected exactly one)");
    proof {
        assert(msg@ =~= "reference "@ + ref_surface(*r) + " matched "@ + crate::text::decimal(hits@.len())
            + " joints in the owning GLTF armature (expected exactly one)"@);
    }
    Err(msg)
}

/// A declaration's five references resolved among `joints`.
fn resolve_component(w: &World, joints: &Vec<ComponentId>, c: &JointRetargetBasisComponent) -> (res: Result<
    RetargetBasisDefinition,
    String,
>)
    ensures
        match res {
            Ok(d) => resolve_declaration(w, joints@, *c) == Ok::<RetargetBasisDefinition, Seq<char>>(d),
            Err(e) => resolve_declaration(w, joints@, *c) == Err::<RetargetBasisDefinition, Seq<char>>(e@),
        },
{
    let target = match resolve_in_armature(w, joints, &c.target) {
        Ok(id) => id,
        Err(e) => {
            return Err(e);
        },
    };
    let forward_start = match resolve_in_armature(w, joints, &c.forward_start) {
        Ok(id) => id,
        Err(e) => {
            return Err(e);
        },
    };
    let forward_end = match resolve_in_armature(w, joints, &c.forward_end) {
        Ok(id) => id,
        Err(e) => {
            return Err(e);
        },
    };
    let up_start = match resolve_in_armature(w, joints, &c.up_start) {
        Ok(id) => id,
        Err(e) => {
            return Err(e);
        },
    };
    let up_end = match resolve_in_armature(w, joints, &c.up_end) {
        Ok(id) => id,
        Err(e) => {
            return Err(e);
        },
    };
    Ok(
        RetargetBasisDefinition {
            target,
            forward: LandmarkDirection { start: forward_start, end: forward_end },
            up: LandmarkDirection { start: up_start, end: up_end },
        },
    )
}

/// The first glTF root whose armature holds all of `d`'s joints.
fn find_owner_for_definition(w: &World, d: RetargetBasisDefinition) -> (r: Option<ComponentId>)
    ensures
        r == owner_for_definition(w, d),
{
    let all = w.all_components();
    let ghost pred = owns_definition(w, d);
    let mut i: usize = 0;
    while i < all.len()
        invariant
            i <= all@.len(),
            all@ == w.all_ids(),
            pred == owns_definition(w, d),
            crate::world::first_where(all@.take(i as int), pred) is None,
        decreases all@.len() - i,
    {
        let g = all[i];
        proof {
            crate::world::lemma_first_where_step(all@, i as int, pred);
        }
        let hit = match w.component(g) {
            Some(Component::Gltf(c)) => {
                let j = &c.armature_joint_transforms;
                let all_in = crate::world::contains_id(j, d.target) && crate::world::contains_id(j, d.forward.start)
                    && crate::world::contains_id(j, d.forward.end) && crate::world::contains_id(j, d.up.start)
                    && crate::world::contains_id(j, d.up.end);
                proof {
                    let ms = members(d);
                    if all_in {
                        assert forall|k: int| 0 <= k < 5 implies j@.contains(#[trigger] ms[k]) by {
                            if k == 0 {
                            } else if k == 1 {
                            } else if k == 2 {
                            } else if k == 3 {
                            } else {
                            }
                        }
                    } else {
                        if !j@.contains(d.target) {
                            assert(ms[0] == d.target);
                        } else if !j@.contains(d.forward.start) {
                            assert(ms[1] == d.forward.start);
                        } else if !j@.contains(d.forward.end) {
                            assert(ms[2] == d.forward.end);
                        } else if !j@.contains(d.up.start) {
                            assert(ms[3] == d.up.start);
                        } else {
                            assert(ms[4] == d.up.end);
                        }
                    }
                }
                all_in
            },
            _ => false,
        };
        if hit {
            proof {
                crate::world::lemma_first_where_prefix(all@, i + 1, pred);
            }
            return Some(g);
        }
        i += 1;
    }
    proof {
        assert(all@.take(all@.len() as int) =~= all@);
    }
    None
}

/// Why a declaration outside any glTF is invalid.
pub open spec fn no_owner_message() -> Seq<char> {
    "JointRetargetBasis must be a descendant of exactly one GLTF"@
}

/// Why a definition whose joints no one armature holds is invalid.
pub open spec fn no_shared_owner_message() -> Seq<char> {
    "definition members do not share an owning GLTF armature"@
}

/// Registering declaration `s`: it is read from the world and resolved in
/// the armature of its nearest glTF ancestor. Without such an ancestor it
/// is invalid; before the import it waits; an unresolvable reference makes
/// it invalid; otherwise its target is resolved afresh. A component that is
/// not a declaration changes nothing.
pub open spec fn register_outcome(w: &World, m: RegistryModel, s: ComponentId) -> (RegistryModel, Seq<RequestView>) {
    match w.component_spec(s) {
        Some(Component::JointRetargetBasis(c)) => {
            let label = label_of(w, s);
            match nearest_gltf(w, s) {
                None => (
                    set_entry(
                        m,
                        s,
                        SourceView { owner: None, definition: None, status: StatusView::Invalid(no_owner_message()), label },
                    ),
                    seq![],
                ),
                Some(o) => {
                    let joints = gltf_joints(w, o);
                    if joints.len() == 0 {
                        (set_entry(m, s, SourceView { owner: Some(o), definition: None, status: StatusView::WaitingForGltf, label }), seq![])
                    } else {
                        match resolve_declaration(w, joints, c) {
                            Err(e) => (
                                set_entry(m, s, SourceView { owner: Some(o), definition: None, status: StatusView::Invalid(e), label }),
                                seq![],
                            ),
                            Ok(d) => reconcile(
                                set_entry(m, s, SourceView { owner: Some(o), definition: Some(d), status: StatusView::WaitingForGltf, label }),
                                d.target,
                            ),
                        }
                    }
                },
            }
        },
        _ => (m, seq![]),
    }
}

/// Replacing the definition of declaration `s` by `d`: the owner is the one
/// it has, or else the first armature holding all of `d`'s joints. Without
/// an owner it is invalid; otherwise `d`'s target is resolved afresh, and
/// so is the old target when it differs.
pub open spec fn replace_outcome(w: &World, m: RegistryModel, s: ComponentId, d: RetargetBasisDefinition) -> (
    RegistryModel,
    Seq<RequestView>,
) {
    let has = m.entries.contains_key(s);
    let owner = if has && m.entries[s].owner is Some {
        m.entries[s].owner
    } else {
        owner_for_definition(w, d)
    };
    let label = label_of(w, s);
    match owner {
        None => (
            set_entry(m, s, SourceView { owner: None, definition: Some(d), status: StatusView::Invalid(no_shared_owner_message()), label }),
            seq![],
        ),
        Some(o) => {
            let first = reconcile(
                set_entry(m, s, SourceView { owner: Some(o), definition: Some(d), status: StatusView::WaitingForGltf, label }),
                d.target,
            );
            if has && m.entries[s].definition is Some && m.entries[s].definition.unwrap().target != d.target {
                let second = reconcile(first.0, m.entries[s].definition.unwrap().target);
                (second.0, first.1 + second.1)
            } else {
                first
            }
        },
    }
}

/// Removing declaration `s`: it is dropped, with the publication of its
/// target, and its target is resolved afresh.
pub open spec fn remove_outcome(m: RegistryModel, s: ComponentId) -> (RegistryModel, Seq<RequestView>) {
    let m1 = unindex(m, s);
    let m2 = with_entries(m1, m1.entries.remove(s));
    if m.entries.contains_key(s) && m.entries[s].definition is Some {
        reconcile(m2, m.entries[s].definition.unwrap().target)
    } else {
        (m2, seq![])
    }
}

/// `step` applied to each element of `order` in turn, the requests
/// concatenated.
pub open spec fn fold_steps(
    m: RegistryModel,
    order: Seq<ComponentId>,
    step: spec_fn(RegistryModel, ComponentId) -> (RegistryModel, Seq<RequestView>),
) -> (RegistryModel, Seq<RequestView>)
    decreases order.len(),
{
    if order.len() == 0 {
        (m, seq![])
    } else {
        let before = fold_steps(m, order.drop_last(), step);
        let last = step(before.0, order.last());
        (last.0, before.1 + last.1)
    }
}

pub open spec fn remove_step() -> spec_fn(RegistryModel, ComponentId) -> (RegistryModel, Seq<RequestView>) {
    |m: RegistryModel, s: ComponentId| remove_outcome(m, s)
}

pub open spec fn register_step(w: &World) -> spec_fn(RegistryModel, ComponentId) -> (RegistryModel, Seq<RequestView>) {
    |m: RegistryModel, s: ComponentId| register_outcome(w, m, s)
}

/// Declaration `s` of armature `g` goes back to waiting, its definition
/// and publication dropped.
pub open spec fn invalidate_step(w: &World, g: ComponentId) -> spec_fn(RegistryModel, ComponentId) -> (RegistryModel, Seq<RequestView>) {
    |m: RegistryModel, s: ComponentId|
        (
            set_entry(m, s, SourceView { owner: Some(g), definition: None, status: StatusView::WaitingForGltf, label: label_of(w, s) }),
            seq![],
        )
}

/// `order` lists the identities of `set` in increasing order.
pub open spec fn enumerates(order: Seq<ComponentId>, set: Set<ComponentId>) -> bool {
    increasing(order) && order.to_set() == set
}

pub open spec fn outcome_view(o: Result<(), String>) -> Result<(), Seq<char>> {
    match o {
        Ok(_) => Ok(()),
        Err(e) => Err(e@),
    }
}

/// How a diagnostic snapshot shows a declaration of `m`.
pub open spec fn snapshot_of(m: RegistryModel, d: RetargetBasisDiagnosticSnapshot) -> bool {
    &&& m.entries.contains_key(d.source)
    &&& d.target == match m.entries[d.source].definition {
        Some(def) => Some(def.target),
        None => None::<ComponentId>,
    }
    &&& d.owning_gltf == m.entries[d.source].owner
    &&& status_view(d.status) == m.entries[d.source].status
    &&& sorted_status(d.status)
}

proof fn lemma_reconcile_ignores_publication(x: RegistryModel, t: ComponentId)
    ensures
        reconcile(with_published(x, x.published.remove(t)), t) == reconcile(x, t),
{
    let y = with_published(x, x.published.remove(t));
    assert(y.published.remove(t) =~= x.published.remove(t));
    assert(target_sources(y, t) =~= target_sources(x, t));
}

proof fn lemma_remove_consistent(m: RegistryModel, s: ComponentId)
    requires
        publications_consistent(m),
    ensures
        publications_consistent(with_entries(unindex(m, s), unindex(m, s).entries.remove(s))),
{
    let m1 = unindex(m, s);
    let m2 = with_entries(m1, m1.entries.remove(s));
    if m.entries.contains_key(s) && m.entries[s].definition is Some {
        lemma_unpublish_consistent(m, m.entries[s].definition.unwrap().target);
    }
    assert forall|t: ComponentId| #[trigger] m2.published.contains_key(t) implies {
        let p = m2.published[t];
        &&& target_sources(m2, t) == set![p.source]
        &&& m2.entries[p.source].status == StatusView::Ready
        &&& m2.entries[p.source].owner == Some(p.owner)
        &&& m2.entries[p.source].label == p.label
        &&& generation_of(m2, t) == p.generation
    } by {
        let p = m.published[t];
        assert(target_sources(m, t).contains(p.source));
        lemma_in_target_sources(m, t, p.source);
        if p.source == s {
            assert(!m1.published.contains_key(t));
        }
        if target_sources(m, t).contains(s) {
            assert(set![p.source].contains(s));
        }
        assert(target_sources(m2, t) =~= target_sources(m, t)) by {
            assert forall|x: ComponentId| #[trigger] target_sources(m2, t).contains(x) == target_sources(m, t).contains(x) by {
                lemma_in_target_sources(m2, t, x);
                lemma_in_target_sources(m, t, x);
            }
        }
    }
}

proof fn lemma_complete_consistent(m: RegistryModel, r: RequestView, outcome: Result<(), Seq<char>>)
    requires
        publications_consistent(m),
        request_current(m, r),
    ensures
        publications_consistent(complete(m, r, outcome)),
{
    let m1 = complete(m, r, outcome);
    assert(target_sources(m, r.target).contains(r.source));
    lemma_in_target_sources(m, r.target, r.source);
    assert forall|t: ComponentId| #[trigger] m1.published.contains_key(t) implies {
        let p = m1.published[t];
        &&& target_sources(m1, t) == set![p.source]
        &&& m1.entries[p.source].status == StatusView::Ready
        &&& m1.entries[p.source].owner == Some(p.owner)
        &&& m1.entries[p.source].label == p.label
        &&& generation_of(m1, t) == p.generation
    } by {
        assert(target_sources(m1, t) =~= target_sources(m, t)) by {
            assert forall|x: ComponentId| #[trigger] target_sources(m1, t).contains(x) == target_sources(m, t).contains(x) by {
                lemma_in_target_sources(m1, t, x);
                lemma_in_target_sources(m, t, x);
            }
        }
        if t != r.target {
            let p = m.published[t];
            assert(target_sources(m, t).contains(p.source));
            lemma_in_target_sources(m, t, p.source);
            assert(p.source != r.source);
        }
    }
}

proof fn lemma_first_up_hit(w: &World, start: Option<ComponentId>, fuel: nat, pred: spec_fn(Component) -> bool)
    ensures
        w.first_up(start, fuel, pred) matches Some(id) ==> w.live(id) && pred(w.component_spec(id).unwrap()),
    decreases fuel,
{
    if let Some(id) = start {
        if fuel > 0 && w.live(id) && !pred(w.component_spec(id).unwrap()) {
            lemma_first_up_hit(w, w.parent_spec(id), (fuel - 1) as nat, pred);
        }
    }
}

proof fn lemma_map_values_concat(a: Seq<BasisRequest>, b: Seq<BasisRequest>)
    ensures
        request_views(a + b) == request_views(a) + request_views(b),
{
    assert(request_views(a + b) =~= request_views(a) + request_views(b));
}

fn clone_provenance(p: &RetargetBasisProvenance) -> (r: RetargetBasisProvenance)
    ensures
        r.source == p.source,
        r.owning_gltf == p.owning_gltf,
        r.source_label@ == p.source_label@,
{
    RetargetBasisProvenance { source: p.source, source_label: p.source_label.clone(), owning_gltf: p.owning_gltf }
}

impl JointBasisRetargetingSystem {
    /// Registers or re-reads declaration `source` from the world; the
    /// requests are the bases that now need computing.
    pub fn register_component(&mut self, world: &World, source: ComponentId) -> (reqs: Vec<BasisRequest>)
        requires
            old(self).wf(),
        ensures
            final(self).wf(),
            final(self).model() == register_outcome(world, old(self).model(), source).0,
            request_views(reqs@) == register_outcome(world, old(self).model(), source).1,
    {
        let ghost m = self.model();
        let c = match world.component(source) {
            Some(Component::JointRetargetBasis(c)) => c,
            _ => {
                return Vec::new();
            },
        };
        let label = match world.component_label(source) {
            Some(n) => n,
            None => String::new(),
        };
        let owner = match find_nearest_gltf(world, source) {
            None => {
                self.place_entry(
                    source,
                    SourceEntry {
                        owner: None,
                        definition: None,
                        status: RetargetBasisStatus::Invalid(text("JointRetargetBasis must be a descendant of exactly one GLTF")),
                        label,
                    },
                );
                return Vec::new();
            },
            Some(o) => o,
        };
        proof {
            lemma_first_up_hit(world, world.parent_spec(source), 64, gltf_pred());
        }
        let joints = match world.component(owner) {
            Some(Component::Gltf(g)) => &g.armature_joint_transforms,
            _ => {
                return Vec::new();
            },
        };
        if joints.len() == 0 {
            self.place_entry(
                source,
                SourceEntry { owner: Some(owner), definition: None, status: RetargetBasisStatus::WaitingForGltf, label },
            );
            return Vec::new();
        }
        match resolve_component(world, joints, c) {
            Err(e) => {
                self.place_entry(
                    source,
                    SourceEntry { owner: Some(owner), definition: None, status: RetargetBasisStatus::Invalid(e), label },
                );
                Vec::new()
            },
            Ok(d) => {
                let ghost ev = SourceView {
                    owner: Some(owner),
                    definition: Some(d),
                    status: StatusView::WaitingForGltf,
                    label: label@,
                };
                self.place_entry(
                    source,
                    SourceEntry { owner: Some(owner), definition: Some(d), status: RetargetBasisStatus::WaitingForGltf, label },
                );
                proof {
                    lemma_reconcile_ignores_publication(set_entry(m, source, ev), d.target);
                }
                self.reconcile_target(d.target)
            },
        }
    }

    /// Replaces the definition of declaration `source`; the requests are the
    /// bases that now need computing.
    pub fn replace_definition(&mut self, world: &World, source: ComponentId, definition: RetargetBasisDefinition) -> (reqs: Vec<
        BasisRequest,
    >)
        requires
            old(self).wf(),
        ensures
            final(self).wf(),
            final(self).model() == replace_outcome(world, old(self).model(), source, definition).0,
            request_views(reqs@) == replace_outcome(world, old(self).model(), source, definition).1,
    {
        let ghost m = self.model();
        let (existing_owner, old_target) = match self.sources.get(source) {
            Some(e) => (
                e.owner,
                match e.definition {
                    Some(d) => Some(d.target),
                    None => None,
                },
            ),
            None => (None, None),
        };
        let owner = match existing_owner {
            Some(o) => Some(o),
            None => find_owner_for_definition(world, definition),
        };
        let label = match world.component_label(source) {
            Some(n) => n,
            None => String::new(),
        };
        match owner {
            None => {
                self.place_entry(
                    source,
                    SourceEntry {
                        owner: None,
                        definition: Some(definition),
                        status: RetargetBasisStatus::Invalid(text("definition members do not share an owning GLTF armature")),
                        label,
                    },
                );
                Vec::new()
            },
            Some(o) => {
                let ghost ev = SourceView {
                    owner: Some(o),
                    definition: Some(definition),
                    status: StatusView::WaitingForGltf,
                    label: label@,
                };
                self.place_entry(
                    source,
                    SourceEntry { owner: Some(o), definition: Some(definition), status: RetargetBasisStatus::WaitingForGltf, label },
                );
                proof {
                    lemma_reconcile_ignores_publication(set_entry(m, source, ev), definition.target);
                }
                let mut reqs = self.reconcile_target(definition.target);
                if let Some(ot) = old_target {
                    if ot != definition.target {
                        let ghost first = reqs@;
                        let mut more = self.reconcile_target(ot);
                        let ghost second = more@;
                        reqs.append(&mut more);
                        proof {
                            lemma_map_values_concat(first, second);
                        }
                    }
                }
                reqs
            },
        }
    }

    /// Removes declaration `source`; the requests are the bases that now
    /// need computing.
    pub fn remove_definition(&mut self, source: ComponentId) -> (reqs: Vec<BasisRequest>)
        requires
            old(self).wf(),
        ensures
            final(self).wf(),
            final(self).model() == remove_outcome(old(self).model(), source).0,
            request_views(reqs@) == remove_outcome(old(self).model(), source).1,
    {
        let ghost m = self.model();
        let target = match self.sources.get(source) {
            Some(e) => match e.definition {
                Some(d) => Some(d.target),
                None => None,
            },
            None => None,
        };
        self.unindex_source(source);
        let ghost m1 = self.model();
        self.sources.remove(source);
        proof {
            assert(self.model().entries =~= m1.entries.remove(source));
            lemma_remove_consistent(m, source);
        }
        match target {
            Some(t) => self.reconcile_target(t),
            None => {
                proof {
                    assert(request_views(Seq::<BasisRequest>::empty()) =~= Seq::<RequestView>::empty());
                }
                Vec::new()
            },
        }
    }
}

proof fn lemma_fold_step(
    m: RegistryModel,
    order: Seq<ComponentId>,
    i: int,
    step: spec_fn(RegistryModel, ComponentId) -> (RegistryModel, Seq<RequestView>),
)
    requires
        0 <= i < order.len(),
    ensures
        fold_steps(m, order.take(i + 1), step) == ({
            let before = fold_steps(m, order.take(i), step);
            let last = step(before.0, order[i]);
            (last.0, before.1 + last.1)
        }),
{
    assert(order.take(i + 1).drop_last() =~= order.take(i));
    assert(order.take(i + 1).last() == order[i]);
}

impl JointBasisRetargetingSystem {
    /// Forgets a removed component: the declaration itself, or every
    /// declaration it owned or that names it as a joint, in identity order.
    pub fn component_removed(&mut self, component: ComponentId) -> (reqs: Vec<BasisRequest>)
        requires
            old(self).wf(),
        ensures
            final(self).wf(),
            old(self).model().entries.contains_key(component) ==> final(self).model() == remove_outcome(
                old(self).model(),
                component,
            ).0 && request_views(reqs@) == remove_outcome(old(self).model(), component).1,
            !old(self).model().entries.contains_key(component) ==> exists|order: Seq<ComponentId>|
                {
                    &&& enumerates(order, owner_sources(old(self).model(), component) + dependency_sources(old(self).model(), component))
                    &&& final(self).model() == fold_steps(old(self).model(), order, remove_step()).0
                    &&& request_views(reqs@) == fold_steps(old(self).model(), order, remove_step()).1
                },
    {
        let ghost m = self.model();
        if self.sources.contains_key(component) {
            return self.remove_definition(component);
        }
        let affected = self.collect_sources(SourceFilter::Touching(component));
        proof {
            assert(filtered(m, SourceFilter::Touching(component)) =~= owner_sources(m, component) + dependency_sources(m, component));
            assert(enumerates(affected@, owner_sources(m, component) + dependency_sources(m, component)));
        }
        let mut reqs: Vec<BasisRequest> = Vec::new();
        let mut i: usize = 0;
        while i < affected.len()
            invariant
                i <= affected@.len(),
                enumerates(affected@, owner_sources(m, component) + dependency_sources(m, component)),
                self.wf(),
                self.model() == fold_steps(m, affected@.take(i as int), remove_step()).0,
                request_views(reqs@) == fold_steps(m, affected@.take(i as int), remove_step()).1,
            decreases affected@.len() - i,
        {
            proof {
                lemma_fold_step(m, affected@, i as int, remove_step());
            }
            let ghost first = reqs@;
            let mut more = self.remove_definition(affected[i]);
            let ghost second = more@;
            reqs.append(&mut more);
            proof {
                lemma_map_values_concat(first, second);
            }
            i += 1;
        }
        proof {
            assert(affected@.take(affected@.len() as int) =~= affected@);
            assert(enumerates(affected@, owner_sources(m, component) + dependency_sources(m, component)));
        }
        reqs
    }

    /// Re-reads every declaration that armature `gltf` owns, in identity
    /// order, once its import has run.
    #[verifier::rlimit(40)]
    pub fn gltf_initialized(&mut self, world: &World, gltf: ComponentId) -> (reqs: Vec<BasisRequest>)
        requires
            old(self).wf(),
        ensures
            final(self).wf(),
            exists|order: Seq<ComponentId>|
                {
                    &&& enumerates(order, owner_sources(old(self).model(), gltf))
                    &&& final(self).model() == fold_steps(old(self).model(), order, register_step(world)).0
                    &&& request_views(reqs@) == fold_steps(old(self).model(), order, register_step(world)).1
                },
    {
        let ghost m = self.model();
        let owned = self.collect_sources(SourceFilter::Owner(gltf));
        proof {
            assert(filtered(m, SourceFilter::Owner(gltf)) =~= owner_sources(m, gltf));
            assert(enumerates(owned@, owner_sources(m, gltf)));
        }
        let mut reqs: Vec<BasisRequest> = Vec::new();
        let mut i: usize = 0;
        while i < owned.len()
            invariant
                i <= owned@.len(),
                enumerates(owned@, owner_sources(m, gltf)),
                self.wf(),
                self.model() == fold_steps(m, owned@.take(i as int), register_step(world)).0,
                request_views(reqs@) == fold_steps(m, owned@.take(i as int), register_step(world)).1,
            decreases owned@.len() - i,
        {
            proof {
                lemma_fold_step(m, owned@, i as int, register_step(world));
            }
            let ghost first = reqs@;
            let mut more = self.register_component(world, owned[i]);
            let ghost second = more@;
            reqs.append(&mut more);
            proof {
                lemma_map_values_concat(first, second);
            }
            i += 1;
        }
        proof {
            assert(owned@.take(owned@.len() as int) =~= owned@);
            assert(enumerates(owned@, owner_sources(m, gltf)));
        }
        reqs
    }

    /// Sends every declaration of armature `gltf` back to waiting, its
    /// definition and publication dropped, for an instance whose imported
    /// nodes are respawned.
    pub fn invalidate_gltf_generation(&mut self, world: &World, gltf: ComponentId)
        requires
            old(self).wf(),
        ensures
            final(self).wf(),
            exists|order: Seq<ComponentId>|
                {
                    &&& enumerates(order, owner_sources(old(self).model(), gltf))
                    &&& final(self).model() == fold_steps(old(self).model(), order, invalidate_step(world, gltf)).0
                },
    {
        let ghost m = self.model();
        let owned = self.collect_sources(SourceFilter::Owner(gltf));
        proof {
            assert(filtered(m, SourceFilter::Owner(gltf)) =~= owner_sources(m, gltf));
            assert(enumerates(owned@, owner_sources(m, gltf)));
        }
        let mut i: usize = 0;
        while i < owned.len()
            invariant
                i <= owned@.len(),
                enumerates(owned@, owner_sources(m, gltf)),
                self.wf(),
                self.model() == fold_steps(m, owned@.take(i as int), invalidate_step(world, gltf)).0,
            decreases owned@.len() - i,
        {
            proof {
                lemma_fold_step(m, owned@, i as int, invalidate_step(world, gltf));
            }
            let source = owned[i];
            let label = match world.component_label(source) {
                Some(n) => n,
                None => String::new(),
            };
            self.place_entry(
                source,
                SourceEntry { owner: Some(gltf), definition: None, status: RetargetBasisStatus::WaitingForGltf, label },
            );
            i += 1;
        }
        proof {
            assert(owned@.take(owned@.len() as int) =~= owned@);
            assert(enumerates(owned@, owner_sources(m, gltf)));
        }
    }

    /// Applies the outcome of computing `request`: whether it was still
    /// current, and so applied.
    pub fn complete_basis(&mut self, request: &BasisRequest, outcome: Result<(), String>) -> (applied: bool)
        requires
            old(self).wf(),
        ensures
            final(self).wf(),
            applied == request_current(old(self).model(), request_view(*request)),
            final(self).model() == complete(old(self).model(), request_view(*request), outcome_view(outcome)),
    {
        let ghost m = self.model();
        let ghost rv = request_view(*request);
        let t = request.target;
        let src = request.provenance.source;
        let list = self.collect_sources(SourceFilter::Target(t));
        proof {
            assert(filtered(m, SourceFilter::Target(t)) =~= target_sources(m, t));
        }
        let single = list.len() == 1 && list[0] == src;
        proof {
            if single {
                assert(list@.to_set() =~= set![src]) by {
                    assert forall|y: ComponentId| list@.to_set().contains(y) implies y == src by {
                        let q = choose|q: int| 0 <= q < list@.len() && list@[q] == y;
                        assert(q == 0);
                    }
                    assert(list@[0] == src);
                }
            } else {
                if target_sources(m, t) == set![src] {
                    assert(list@.len() == 1);
                    assert(list@.to_set().contains(list@[0]));
                }
            }
        }
        let generation = match self.generations.get(t) {
            Some(g) => *g,
            None => 0,
        };
        let (owner, definition, label, matches) = match self.sources.get(src) {
            Some(e) => {
                let same_owner = match e.owner {
                    Some(o) => o == request.provenance.owning_gltf,
                    None => false,
                };
                let same_definition = match e.definition {
                    Some(d) => d == request.definition,
                    None => false,
                };
                let same_label = e.label == request.provenance.source_label;
                (e.owner, e.definition, e.label.clone(), same_owner && same_definition && same_label)
            },
            None => (None, None, String::new(), false),
        };
        let current = single && matches && generation == request.generation;
        proof {
            assert(single == (target_sources(m, t) == set![src]));
            if target_sources(m, t) == set![src] {
                assert(target_sources(m, t).contains(src));
                assert(m.entries.contains_key(src));
                assert(matches == (m.entries[src].owner == Some(rv.owner) && m.entries[src].definition == Some(rv.definition)
                    && m.entries[src].label == rv.label));
            }
            assert(generation == generation_of(m, t));
            assert(current == request_current(m, rv));
        }
        if !current {
            return false;
        }
        proof {
            assert(request_current(m, rv));
            lemma_complete_consistent(m, rv, outcome_view(outcome));
        }
        match outcome {
            Ok(_) => {
                self.sources.insert(src, SourceEntry { owner, definition, status: RetargetBasisStatus::Ready, label });
                self.published.insert(
                    t,
                    PublishedBasis { target: t, generation: request.generation, provenance: clone_provenance(&request.provenance) },
                );
                proof {
                    assert(self.model().entries =~= complete(m, rv, outcome_view(outcome)).entries);
                    assert(self.model().published =~= complete(m, rv, outcome_view(outcome)).published);
                }
            },
            Err(msg) => {
                self.sources.insert(src, SourceEntry { owner, definition, status: RetargetBasisStatus::Invalid(msg), label });
                self.published.remove(t);
                proof {
                    assert(self.model().entries =~= complete(m, rv, outcome_view(outcome)).entries);
                    assert(self.model().published =~= complete(m, rv, outcome_view(outcome)).published);
                }
            },
        }
        true
    }

    /// The state of target `target`: the conflict, in identity order, when
    /// several declarations define it, or else the state of its one
    /// declaration.
    pub fn status_for(&self, target: ComponentId) -> (r: Option<RetargetBasisStatus>)
        requires
            self.wf(),
        ensures
            target_sources(self.model(), target).finite(),
            match r {
                None => target_sources(self.model(), target).len() == 0,
                Some(st) => if target_sources(self.model(), target).len() > 1 {
                    st matches RetargetBasisStatus::ConflictingDefinition { sources } && increasing(sources@) && sources@.to_set()
                        == target_sources(self.model(), target)
                } else {
                    exists|s: ComponentId|
                        {
                            &&& target_sources(self.model(), target) == set![s]
                            &&& status_view(st) == #[trigger] self.model().entries[s].status
                            &&& sorted_status(st)
                        }
                },
            },
    {
        let ghost m = self.model();
        let list = self.collect_sources(SourceFilter::Target(target));
        proof {
            assert(filtered(m, SourceFilter::Target(target)) =~= target_sources(m, target));
        }
        if list.len() > 1 {
            Some(RetargetBasisStatus::ConflictingDefinition { sources: list })
        } else if list.len() == 1 {
            let s = list[0];
            proof {
                assert(list@.to_set().contains(s));
                assert(list@.to_set() =~= set![s]) by {
                    assert forall|y: ComponentId| list@.to_set().contains(y) implies y == s by {
                        let q = choose|q: int| 0 <= q < list@.len() && list@[q] == y;
                        assert(q == 0);
                    }
                }
            }
            self.status_for_source(s)
        } else {
            None
        }
    }

    /// Every declaration as diagnostics show it, in identity order.
    pub fn diagnostic_snapshots(&self) -> (r: Vec<RetargetBasisDiagnosticSnapshot>)
        requires
            self.wf(),
        ensures
            r@.len() == self.model().entries.dom().len(),
            forall|i: int, j: int| 0 <= i < j < r@.len() ==> (#[trigger] r@[i]).source.index < (#[trigger] r@[j]).source.index,
            forall|i: int| 0 <= i < r@.len() ==> snapshot_of(self.model(), #[trigger] r@[i]),
            forall|x: ComponentId| #[trigger] self.model().entries.contains_key(x) ==> exists|i: int| 0 <= i < r@.len() && (
            #[trigger] r@[i]).source == x,
    {
        let ghost m = self.model();
        let keys = self.collect_sources(SourceFilter::Any);
        proof {
            assert(filtered(m, SourceFilter::Any) =~= m.entries.dom());
        }
        let mut r: Vec<RetargetBasisDiagnosticSnapshot> = Vec::new();
        let mut i: usize = 0;
        while i < keys.len()
            invariant
                i <= keys@.len(),
                self.wf(),
                m == self.model(),
                increasing(keys@),
                keys@.to_set() == m.entries.dom(),
                r@.len() == i,
                forall|k: int| 0 <= k < i ==> (#[trigger] r@[k]).source == keys@[k],
                forall|k: int| 0 <= k < i ==> snapshot_of(m, #[trigger] r@[k]),
            decreases keys@.len() - i,
        {
            let k = keys[i];
            proof {
                assert(keys@.to_set().contains(k));
            }
            match self.sources.get(k) {
                Some(e) => {
                    r.push(
                        RetargetBasisDiagnosticSnapshot {
                            source: k,
                            target: match e.definition {
                                Some(d) => Some(d.target),
                                None => None,
                            },
                            owning_gltf: e.owner,
                            status: clone_status(&e.status),
                        },
                    );
                },
                None => {
                    return r;
                },
            }
            i += 1;
        }
        proof {
            assert forall|x: ComponentId| #[trigger] m.entries.contains_key(x) implies exists|q: int| 0 <= q < r@.len() && (
            #[trigger] r@[q]).source == x by {
                assert(keys@.to_set().contains(x));
                let q = choose|q: int| 0 <= q < keys@.len() && keys@[q] == x;
                assert(r@[q].source == x);
            }
            assert forall|a: int, b: int| 0 <= a < b < r@.len() implies (#[trigger] r@[a]).source.index < (#[trigger] r@[b]).source.index by {
                assert(keys@[a].index < keys@[b].index);
            }
        }
        r
    }
}

/// A published basis belongs to the one declaration that defines its
/// target, which is ready; so a target that several declarations define is
/// never published.
pub proof fn published_basis_belongs_to_its_ready_declaration(sys: &JointBasisRetargetingSystem, t: ComponentId)
    requires
        sys.wf(),
    ensures
        sys.model().published.contains_key(t) ==> {
            let p = sys.model().published[t];
            &&& target_sources(sys.model(), t) == set![p.source]
            &&& sys.model().entries[p.source].status == StatusView::Ready
            &&& generation_of(sys.model(), t) == p.generation
        },
        target_sources(sys.model(), t).len() > 1 ==> !sys.model().published.contains_key(t),
{
    if sys.model().published.contains_key(t) {
        let p = sys.model().published[t];
        assert(set![p.source].len() == 1);
    }
}

/// Resolving a target with one declaration requests its basis under the
/// next generation of that target, and leaves other targets' generations
/// alone; with several declarations it marks each of them as conflicting
/// with all of them.
pub proof fn reconcile_requests_under_a_fresh_generation(m: RegistryModel, t: ComponentId)
    requires
        m.entries.dom().finite(),
    ensures
        !reconcile(m, t).0.published.contains_key(t),
        forall|u: ComponentId| u != t ==> #[trigger] generation_of(reconcile(m, t).0, u) == generation_of(m, u),
        generation_of(reconcile(m, t).0, t) >= generation_of(m, t),
        target_sources(m, t).len() == 1 ==> {
            let r = reconcile(m, t).1;
            &&& r.len() == 1
            &&& r[0].target == t
            &&& r[0].generation == saturating_next(generation_of(m, t))
            &&& generation_of(m, t) < u64::MAX ==> r[0].generation > generation_of(m, t)
            &&& target_sources(m, t) == set![r[0].source]
        },
        target_sources(m, t).len() != 1 ==> reconcile(m, t).1.len() == 0,
        target_sources(m, t).len() > 1 ==> forall|s: ComponentId| #[trigger] target_sources(m, t).contains(s)
            ==> reconcile(m, t).0.entries[s].status == StatusView::Conflicting(target_sources(m, t)),
{
    let srcs = target_sources(m, t);
    if srcs.len() == 1 {
        let x = srcs.choose();
        assert(srcs.contains(x));
        assert(srcs =~= set![x]) by {
            assert forall|y: ComponentId| srcs.contains(y) implies y == x by {
                if y != x {
                    assert(srcs.remove(x).contains(y));
                    assert(srcs.remove(x).len() == 0);
                }
            }
        }
    }
}

/// A request that is no longer current changes nothing when completed.
pub proof fn stale_completion_changes_nothing(m: RegistryModel, r: RequestView, outcome: Result<(), Seq<char>>)
    requires
        !request_current(m, r),
    ensures
        complete(m, r, outcome) == m,
{
}

/// Replacing a definition takes down the publication of the old target;
/// when the declaration has an owner, the new target is unpublished too
/// until its basis is computed.
pub proof fn replacement_unpublishes_old_and_new_targets(w: &World, m: RegistryModel, s: ComponentId, d: RetargetBasisDefinition)
    ensures
        m.entries.contains_key(s) && m.entries[s].definition is Some ==> !replace_outcome(w, m, s, d).0.published.contains_key(
            m.entries[s].definition.unwrap().target,
        ),
        replace_outcome(w, m, s, d).0.entries[s].definition == Some(d),
        (replace_outcome(w, m, s, d).0.entries[s].owner is Some) ==> !replace_outcome(w, m, s, d).0.published.contains_key(d.target),
{
    let has = m.entries.contains_key(s);
    let owner = if has && m.entries[s].owner is Some {
        m.entries[s].owner
    } else {
        owner_for_definition(w, d)
    };
    let label = label_of(w, s);
    if let Some(o) = owner {
        let ev = SourceView { owner: Some(o), definition: Some(d), status: StatusView::WaitingForGltf, label };
        let m1 = set_entry(m, s, ev);
        let first = reconcile(m1, d.target);
        assert(first.0.entries.contains_key(s));
        if has && m.entries[s].definition is Some && m.entries[s].definition.unwrap().target != d.target {
            let ot = m.entries[s].definition.unwrap().target;
            assert(!m1.published.contains_key(ot));
            assert(!first.0.published.contains_key(ot));
        }
    }
}

/// When one of exactly two declarations of a target is removed, the
/// other's basis is requested afresh under the target's next generation.
pub proof fn removing_one_of_two_conflicting_declarations_requests_the_other(
    m: RegistryModel,
    a: ComponentId,
    b: ComponentId,
    t: ComponentId,
)
    requires
        m.entries.dom().finite(),
        a != b,
        target_sources(m, t) == set![a, b],
    ensures
        ({
            let (after, reqs) = remove_outcome(m, b);
            &&& reqs.len() == 1
            &&& reqs[0].source == a
            &&& reqs[0].target == t
            &&& reqs[0].generation == saturating_next(generation_of(m, t))
            &&& reqs[0].definition == m.entries[a].definition.unwrap()
            &&& !after.entries.contains_key(b)
        }),
{
    assert(set![a, b].contains(b));
    lemma_in_target_sources(m, t, b);
    lemma_in_target_sources(m, t, a);
    let m1 = unindex(m, b);
    let m2 = with_entries(m1, m1.entries.remove(b));
    assert(target_sources(m2, t) =~= set![a]) by {
        assert forall|x: ComponentId| #[trigger] target_sources(m2, t).contains(x) == (x == a) by {
            lemma_in_target_sources(m2, t, x);
            lemma_in_target_sources(m, t, x);
            if x != a && x != b {
                assert(!set![a, b].contains(x));
            }
        }
    }
    assert(set![a].contains(set![a].choose()));
}

} // verus!
