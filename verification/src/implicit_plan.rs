//! Reconciling implicit surfaces with the scene: which outputs go, which
//! follow their root's model, colour, material and transmission, which roots
//! are extracted again, and which failures are worth reporting.
//!
//! Sampling, extraction and uploads are the caller's. Per root it hands in
//! the authored fingerprint and what preparing the surface gave (see
//! `SurfaceFacts`); after an extraction it hands back the outcome.
use vstd::prelude::*;
use crate::ids::ComponentId;

verus! {

/// What the system keeps of one implicit surface it extracted.
pub struct ImplicitOutput {
    pub root: ComponentId,
    pub fingerprint: u64,
    /// The mesh was not empty, so an instance draws it.
    pub drawn: bool,
    /// The spheres the surface was built from, in discovery order.
    pub sphere_ids: Vec<ComponentId>,
}

/// The spec value of an `ImplicitOutput`.
pub struct OutputModel {
    pub root: ComponentId,
    pub fingerprint: u64,
    pub drawn: bool,
    pub sphere_ids: Seq<ComponentId>,
}

impl ImplicitOutput {
    pub open spec fn model(&self) -> OutputModel {
        OutputModel { root: self.root, fingerprint: self.fingerprint, drawn: self.drawn, sphere_ids: self.sphere_ids@ }
    }
}

/// What preparing one surface root gave this frame.
pub enum SurfaceFacts {
    /// The surface is ready to extract. The flags say whether the root's
    /// model, colour, material and transmission differ from those of its
    /// current output (all false when it has none).
    Ready {
        model_changed: bool,
        color_changed: bool,
        material_changed: bool,
        transmission_changed: bool,
        /// The spheres the surface is built from, in discovery order.
        sphere_ids: Vec<ComponentId>,
    },
    /// Preparing failed; `discovered` is the current sphere discovery, when
    /// that succeeded.
    Invalid { discovered: Option<Vec<ComponentId>> },
}

/// The outcome of an extraction the system asked for.
#[derive(Debug, Clone, Copy, PartialEq, Eq, Structural)]
pub enum ExtractOutcome {
    /// The mesh has no vertices.
    Empty,
    /// The mesh has no finite bounds.
    NoBounds,
    /// The mesh could not be uploaded.
    UploadFailed,
    /// The mesh is drawn by a new instance.
    Drawn,
    /// Sampling or extraction failed.
    Failed,
}

/// One thing the caller does for the system.
#[derive(Debug, Clone, Copy, PartialEq, Eq, Structural)]
pub enum ImplicitAction {
    /// Remove the root's output instance, if drawn, and its mesh bounds.
    RemoveOutput(ComponentId),
    /// Move the root's output (and its bounds) to the root's model.
    UpdateModel(ComponentId),
    /// Give the root's output the root's colour.
    UpdateColor(ComponentId),
    /// Give the root's output the root's material.
    UpdateMaterial(ComponentId),
    /// Give the root's output the root's transmission.
    UpdateTransmission(ComponentId),
    /// Extract the root's surface and hand the outcome to `record_extract`.
    Extract { root: ComponentId, fingerprint: u64 },
    /// Report the root's error: it failed with a fingerprint not reported before.
    ReportFailure(ComponentId),
}

/// The first output kept for `root`.
pub open spec fn output_of(outs: Seq<OutputModel>, root: ComponentId) -> Option<OutputModel>
    decreases outs.len(),
{
    if outs.len() == 0 {
        None
    } else {
        match output_of(outs.drop_last(), root) {
            Some(o) => Some(o),
            None => if outs.last().root == root { Some(outs.last()) } else { None },
        }
    }
}

/// `outs` without the outputs of `root`, order kept.
pub open spec fn without_output(outs: Seq<OutputModel>, root: ComponentId) -> Seq<OutputModel>
    decreases outs.len(),
{
    if outs.len() == 0 {
        Seq::empty()
    } else {
        let rest = without_output(outs.drop_last(), root);
        if outs.last().root == root { rest } else { rest.push(outs.last()) }
    }
}

/// The fingerprint last reported as failing for `root`.
pub open spec fn failed_of(failed: Seq<(ComponentId, u64)>, root: ComponentId) -> Option<u64>
    decreases failed.len(),
{
    if failed.len() == 0 {
        None
    } else {
        match failed_of(failed.drop_last(), root) {
            Some(f) => Some(f),
            None => if failed.last().0 == root { Some(failed.last().1) } else { None },
        }
    }
}

/// `failed` without the entries of `root`, order kept.
pub open spec fn without_failed(failed: Seq<(ComponentId, u64)>, root: ComponentId) -> Seq<(ComponentId, u64)>
    decreases failed.len(),
{
    if failed.len() == 0 {
        Seq::empty()
    } else {
        let rest = without_failed(failed.drop_last(), root);
        if failed.last().0 == root { rest } else { rest.push(failed.last()) }
    }
}

/// The surface system's bookkeeping: outputs and the last failing
/// fingerprint of each root.
pub struct ImplicitSurfaceSystem {
    pub outputs: Vec<ImplicitOutput>,
    pub failed: Vec<(ComponentId, u64)>,
}

impl ImplicitSurfaceSystem {
    pub open spec fn outputs_model(&self) -> Seq<OutputModel> {
        self.outputs@.map_values(|o: ImplicitOutput| o.model())
    }

    /// No outputs and no failures yet.
    pub fn new() -> (s: Self)
        ensures
            s.outputs_model() == Seq::<OutputModel>::empty(),
            s.failed@ == Seq::<(ComponentId, u64)>::empty(),
    {
        let s = ImplicitSurfaceSystem { outputs: Vec::new(), failed: Vec::new() };
        proof {
            assert(s.outputs_model() =~= Seq::<OutputModel>::empty());
        }
        s
    }

    fn find(&self, root: ComponentId) -> (r: Option<usize>)
        ensures
            match r {
                Some(i) => i < self.outputs@.len() && output_of(self.outputs_model(), root) == Some(self.outputs_model()[i as int]),
                None => output_of(self.outputs_model(), root) is None,
            },
    {
        let ghost m = self.outputs_model();
        let mut i: usize = 0;
        while i < self.outputs.len()
            invariant
                i <= self.outputs@.len(),
                m == self.outputs_model(),
                output_of(m.take(i as int), root) is None,
            decreases self.outputs@.len() - i,
        {
            proof {
                assert(m.take(i + 1).drop_last() =~= m.take(i as int));
                assert(m[i as int] == self.outputs@[i as int].model());
            }
            if self.outputs[i].root == root {
                proof {
                    assert(m.take(i + 1).last() == m[i as int]);
                    lemma_output_of_prefix(m, i as int + 1, root);
                }
                return Some(i);
            }
            i += 1;
        }
        proof {
            assert(m.take(m.len() as int) =~= m);
        }
        None
    }

    /// Removes the outputs of `root`.
    fn drop_output(&mut self, root: ComponentId)
        ensures
            final(self).outputs_model() == without_output(old(self).outputs_model(), root),
            final(self).failed@ == old(self).failed@,
    {
        let ghost m = self.outputs_model();
        let mut kept: Vec<ImplicitOutput> = Vec::new();
        let mut rest: Vec<ImplicitOutput> = Vec::new();
        std::mem::swap(&mut rest, &mut self.outputs);
        let ghost all = rest@;
        let n = rest.len();
        let mut i: usize = 0;
        proof {
            assert(rest@.subrange(0, all.len() as int) =~= rest@);
            assert(kept@.map_values(|o: ImplicitOutput| o.model()) =~= Seq::<OutputModel>::empty());
        }
        while rest.len() > 0
            invariant
                m == all.map_values(|o: ImplicitOutput| o.model()),
                i + rest@.len() == all.len(),
                all.len() == n,
                rest@ == all.subrange(i as int, all.len() as int),
                kept@.map_values(|o: ImplicitOutput| o.model()) == without_output(m.take(i as int), root),
            decreases rest@.len(),
        {
            let o = rest.remove(0);
            proof {
                assert(o == all[i as int]);
                assert(m.take(i + 1).drop_last() =~= m.take(i as int));
                assert(m.take(i + 1).last() == o.model());
                assert(rest@ =~= all.subrange(i + 1, all.len() as int));
            }
            if o.root != root {
                let ghost k0 = kept@;
                kept.push(o);
                proof {
                    assert(kept@.map_values(|o: ImplicitOutput| o.model()) =~= k0.map_values(|o: ImplicitOutput| o.model()).push(o.model()));
                }
            }
            i += 1;
        }
        proof {
            assert(m.take(m.len() as int) =~= m);
        }
        self.outputs = kept;
    }

    /// Records that `root` failed with `fingerprint`; true when that is news
    /// (the last failure reported for it had another fingerprint).
    fn report_failure(&mut self, root: ComponentId, fingerprint: u64) -> (news: bool)
        ensures
            news == (failed_of(old(self).failed@, root) != Some(fingerprint)),
            final(self).failed@ == without_failed(old(self).failed@, root).push((root, fingerprint)),
            final(self).outputs_model() == old(self).outputs_model(),
    {
        let last = failed_fingerprint(&self.failed, root);
        self.clear_failure(root);
        self.failed.push((root, fingerprint));
        match last {
            Some(f) => f != fingerprint,
            None => true,
        }
    }

    fn clear_failure(&mut self, root: ComponentId)
        ensures
            final(self).failed@ == without_failed(old(self).failed@, root),
            final(self).outputs_model() == old(self).outputs_model(),
    {
        let mut kept: Vec<(ComponentId, u64)> = Vec::new();
        let mut i: usize = 0;
        while i < self.failed.len()
            invariant
                i <= self.failed@.len(),
                kept@ == without_failed(self.failed@.take(i as int), root),
            decreases self.failed@.len() - i,
        {
            proof {
                assert(self.failed@.take(i + 1).drop_last() =~= self.failed@.take(i as int));
            }
            if self.failed[i].0 != root {
                kept.push(self.failed[i]);
            }
            i += 1;
        }
        proof {
            assert(self.failed@.take(self.failed@.len() as int) =~= self.failed@);
        }
        self.failed = kept;
    }
}

fn failed_fingerprint(failed: &Vec<(ComponentId, u64)>, root: ComponentId) -> (r: Option<u64>)
    ensures
        r == failed_of(failed@, root),
{
    let mut r: Option<u64> = None;
    let mut i: usize = 0;
    while i < failed.len()
        invariant
            i <= failed@.len(),
            r == failed_of(failed@.take(i as int), root),
        decreases failed@.len() - i,
    {
        proof {
            assert(failed@.take(i + 1).drop_last() =~= failed@.take(i as int));
        }
        if r.is_none() && failed[i].0 == root {
            r = Some(failed[i].1);
        }
        i += 1;
    }
    proof {
        assert(failed@.take(failed@.len() as int) =~= failed@);
    }
    r
}

/// The first match in a prefix is the first match overall.
proof fn lemma_output_of_prefix(m: Seq<OutputModel>, k: int, root: ComponentId)
    requires
        0 <= k <= m.len(),
        output_of(m.take(k), root) is Some,
    ensures
        output_of(m, root) == output_of(m.take(k), root),
    decreases m.len() - k,
{
    if k < m.len() {
        assert(m.take(k + 1).drop_last() =~= m.take(k));
        lemma_output_of_prefix(m, k + 1, root);
    } else {
        assert(m.take(k) =~= m);
    }
}

/// The roots of `outs` that are not in `roots`, in output order.
pub open spec fn stale_roots(outs: Seq<OutputModel>, roots: Seq<ComponentId>) -> Seq<ComponentId>
    decreases outs.len(),
{
    if outs.len() == 0 {
        Seq::empty()
    } else {
        let rest = stale_roots(outs.drop_last(), roots);
        if roots.contains(outs.last().root) { rest } else { rest.push(outs.last().root) }
    }
}

/// The outputs of `outs` whose root is in `roots`, order kept.
pub open spec fn live_outputs(outs: Seq<OutputModel>, roots: Seq<ComponentId>) -> Seq<OutputModel>
    decreases outs.len(),
{
    if outs.len() == 0 {
        Seq::empty()
    } else {
        let rest = live_outputs(outs.drop_last(), roots);
        if roots.contains(outs.last().root) { rest.push(outs.last()) } else { rest }
    }
}

/// `failed` without the entries of any root of `gone`.
pub open spec fn without_failed_all(failed: Seq<(ComponentId, u64)>, gone: Seq<ComponentId>) -> Seq<(ComponentId, u64)>
    decreases gone.len(),
{
    if gone.len() == 0 {
        failed
    } else {
        without_failed(without_failed_all(failed, gone.drop_last()), gone.last())
    }
}

/// The updates an unchanged surface still needs.
pub open spec fn refresh_actions(root: ComponentId, model: bool, color: bool, material: bool, transmission: bool) -> Seq<ImplicitAction> {
    (if model { seq![ImplicitAction::UpdateModel(root)] } else { Seq::empty() })
    + (if color { seq![ImplicitAction::UpdateColor(root)] } else { Seq::empty() })
    + (if material { seq![ImplicitAction::UpdateMaterial(root)] } else { Seq::empty() })
    + (if transmission { seq![ImplicitAction::UpdateTransmission(root)] } else { Seq::empty() })
}

/// Whether an invalid surface still has the spheres its output was built
/// from (vacuously, when it has no output).
pub open spec fn topology_matches(out: Option<OutputModel>, ids: Option<Seq<ComponentId>>) -> bool {
    match out {
        None => true,
        Some(o) => ids == Some(o.sphere_ids),
    }
}

fn same_ids(a: &Vec<ComponentId>, b: &Vec<ComponentId>) -> (r: bool)
    ensures
        r == (a@ == b@),
{
    if a.len() != b.len() {
        return false;
    }
    let mut i: usize = 0;
    while i < a.len()
        invariant
            i <= a@.len(),
            a@.len() == b@.len(),
            forall|k: int| 0 <= k < i ==> a@[k] == b@[k],
        decreases a@.len() - i,
    {
        if a[i].index != b[i].index {
            return false;
        }
        i += 1;
    }
    proof {
        assert(a@ =~= b@);
    }
    true
}

fn contains_root(roots: &Vec<ComponentId>, root: ComponentId) -> (b: bool)
    ensures
        b == roots@.contains(root),
{
    crate::world::contains_id(roots, root)
}

/// What `record_extract` tells the caller.
#[derive(Debug, Clone, Copy, PartialEq, Eq, Structural)]
pub struct ExtractRecord {
    /// The output it replaced was drawn: remove that instance.
    pub previous_drawn: bool,
    /// The extraction failed with a fingerprint not reported before.
    pub report: bool,
}

impl ImplicitSurfaceSystem {
    /// Drops the outputs (and failure records) of roots that are no longer
    /// implicit surfaces; `roots` are this frame's surface roots. One
    /// `RemoveOutput` per dropped output, in output order.
    pub fn remove_stale(&mut self, roots: &Vec<ComponentId>) -> (acts: Vec<ImplicitAction>)
        ensures
            final(self).outputs_model() == live_outputs(old(self).outputs_model(), roots@),
            final(self).failed@ == without_failed_all(old(self).failed@, stale_roots(old(self).outputs_model(), roots@)),
            acts@ == stale_roots(old(self).outputs_model(), roots@).map_values(|r: ComponentId| ImplicitAction::RemoveOutput(r)),
    {
        let ghost m = self.outputs_model();
        let mut kept: Vec<ImplicitOutput> = Vec::new();
        let mut rest: Vec<ImplicitOutput> = Vec::new();
        let mut acts: Vec<ImplicitAction> = Vec::new();
        std::mem::swap(&mut rest, &mut self.outputs);
        let ghost all = rest@;
        let ghost f0 = self.failed@;
        let n = rest.len();
        let mut i: usize = 0;
        proof {
            assert(rest@.subrange(0, all.len() as int) =~= rest@);
            assert(kept@.map_values(|o: ImplicitOutput| o.model()) =~= Seq::<OutputModel>::empty());
            assert(stale_roots(m.take(0), roots@).map_values(|r: ComponentId| ImplicitAction::RemoveOutput(r)) =~= acts@);
        }
        while rest.len() > 0
            invariant
                m == all.map_values(|o: ImplicitOutput| o.model()),
                i + rest@.len() == all.len(),
                all.len() == n,
                rest@ == all.subrange(i as int, all.len() as int),
                kept@.map_values(|o: ImplicitOutput| o.model()) == live_outputs(m.take(i as int), roots@),
                self.failed@ == without_failed_all(f0, stale_roots(m.take(i as int), roots@)),
                acts@ == stale_roots(m.take(i as int), roots@).map_values(|r: ComponentId| ImplicitAction::RemoveOutput(r)),
            decreases rest@.len(),
        {
            let o = rest.remove(0);
            proof {
                assert(o == all[i as int]);
                assert(m.take(i + 1).drop_last() =~= m.take(i as int));
                assert(m.take(i + 1).last() == o.model());
                assert(rest@ =~= all.subrange(i + 1, all.len() as int));
            }
            let ghost s0 = stale_roots(m.take(i as int), roots@);
            if contains_root(roots, o.root) {
                let ghost k0 = kept@;
                kept.push(o);
                proof {
                    assert(kept@.map_values(|o: ImplicitOutput| o.model()) =~= k0.map_values(|o: ImplicitOutput| o.model()).push(o.model()));
                }
            } else {
                let r = o.root;
                acts.push(ImplicitAction::RemoveOutput(r));
                self.clear_failure(r);
                proof {
                    let s1 = s0.push(r);
                    assert(s1.drop_last() =~= s0);
                    assert(acts@ =~= s1.map_values(|r: ComponentId| ImplicitAction::RemoveOutput(r)));
                }
            }
            i += 1;
        }
        proof {
            assert(m.take(m.len() as int) =~= m);
        }
        self.outputs = kept;
        acts
    }

    /// Reconciles one surface root with what preparing it gave.
    /// - Ready, with an output of the same fingerprint: only the updates
    ///   its flags ask for.
    /// - Ready otherwise: an extraction.
    /// - Invalid: the output goes when the root's spheres are no longer the
    ///   ones it was built from; the failure is recorded, and reported when
    ///   its fingerprint is news.
    pub fn step_root(&mut self, root: ComponentId, fingerprint: u64, facts: &SurfaceFacts) -> (acts: Vec<ImplicitAction>)
        ensures
            match facts {
                SurfaceFacts::Ready { model_changed, color_changed, material_changed, transmission_changed, .. } => {
                    &&& final(self).outputs_model() == old(self).outputs_model()
                    &&& final(self).failed@ == old(self).failed@
                    &&& acts@ == match output_of(old(self).outputs_model(), root) {
                        Some(o) if o.fingerprint == fingerprint =>
                            refresh_actions(root, *model_changed, *color_changed, *material_changed, *transmission_changed),
                        _ => seq![ImplicitAction::Extract { root, fingerprint }],
                    }
                },
                SurfaceFacts::Invalid { discovered } => {
                    let ids = match discovered { Some(v) => Some(v@), None => None };
                    let keep = topology_matches(output_of(old(self).outputs_model(), root), ids);
                    let report = failed_of(old(self).failed@, root) != Some(fingerprint);
                    &&& final(self).outputs_model() == if keep {
                        old(self).outputs_model()
                    } else {
                        without_output(old(self).outputs_model(), root)
                    }
                    &&& final(self).failed@ == without_failed(old(self).failed@, root).push((root, fingerprint))
                    &&& acts@ == (if keep { Seq::empty() } else { seq![ImplicitAction::RemoveOutput(root)] })
                        + (if report { seq![ImplicitAction::ReportFailure(root)] } else { Seq::empty() })
                },
            },
    {
        let found = self.find(root);
        let mut acts: Vec<ImplicitAction> = Vec::new();
        match facts {
            SurfaceFacts::Ready { model_changed, color_changed, material_changed, transmission_changed, .. } => {
                let same = match found {
                    Some(i) => self.outputs[i].fingerprint == fingerprint,
                    None => false,
                };
                if same {
                    if *model_changed {
                        acts.push(ImplicitAction::UpdateModel(root));
                    }
                    if *color_changed {
                        acts.push(ImplicitAction::UpdateColor(root));
                    }
                    if *material_changed {
                        acts.push(ImplicitAction::UpdateMaterial(root));
                    }
                    if *transmission_changed {
                        acts.push(ImplicitAction::UpdateTransmission(root));
                    }
                    proof {
                        assert(acts@ =~= refresh_actions(root, *model_changed, *color_changed, *material_changed, *transmission_changed));
                    }
                } else {
                    acts.push(ImplicitAction::Extract { root, fingerprint });
                }
            },
            SurfaceFacts::Invalid { discovered } => {
                let keep = match found {
                    None => true,
                    Some(i) => match discovered {
                        Some(v) => same_ids(v, &self.outputs[i].sphere_ids),
                        None => false,
                    },
                };
                proof {
                    if let Some(i) = found {
                        assert(self.outputs_model()[i as int] == self.outputs@[i as int].model());
                    }
                }
                if !keep {
                    self.drop_output(root);
                    acts.push(ImplicitAction::RemoveOutput(root));
                }
                let ghost a0 = acts@;
                let report = self.report_failure(root, fingerprint);
                if report {
                    acts.push(ImplicitAction::ReportFailure(root));
                }
                proof {
                    assert(acts@ =~= a0 + (if report { seq![ImplicitAction::ReportFailure(root)] } else { Seq::<ImplicitAction>::empty() }));
                }
            },
        }
        acts
    }

    /// Records the outcome of an extraction of `root` with `fingerprint`
    /// from the spheres `sphere_ids`. An empty or drawn mesh replaces the
    /// root's output and clears its failure; any other outcome is a failure.
    pub fn record_extract(&mut self, root: ComponentId, fingerprint: u64, outcome: ExtractOutcome, sphere_ids: Vec<ComponentId>) -> (r: ExtractRecord)
        ensures
            match outcome {
                ExtractOutcome::Empty | ExtractOutcome::Drawn => {
                    &&& final(self).outputs_model() == without_output(old(self).outputs_model(), root).push(OutputModel {
                        root,
                        fingerprint,
                        drawn: outcome == ExtractOutcome::Drawn,
                        sphere_ids: sphere_ids@,
                    })
                    &&& final(self).failed@ == without_failed(old(self).failed@, root)
                    &&& r.previous_drawn == (output_of(old(self).outputs_model(), root) matches Some(o) && o.drawn)
                    &&& !r.report
                },
                _ => {
                    &&& final(self).outputs_model() == old(self).outputs_model()
                    &&& final(self).failed@ == without_failed(old(self).failed@, root).push((root, fingerprint))
                    &&& !r.previous_drawn
                    &&& r.report == (failed_of(old(self).failed@, root) != Some(fingerprint))
                },
            },
    {
        match outcome {
            ExtractOutcome::Empty | ExtractOutcome::Drawn => {
                let previous = match self.find(root) {
                    Some(i) => self.outputs[i].drawn,
                    None => false,
                };
                self.drop_output(root);
                let ghost m0 = self.outputs_model();
                let drawn = match outcome {
                    ExtractOutcome::Drawn => true,
                    _ => false,
                };
                self.outputs.push(ImplicitOutput { root, fingerprint, drawn, sphere_ids });
                proof {
                    assert(self.outputs_model() =~= m0.push(self.outputs@.last().model()));
                }
                self.clear_failure(root);
                ExtractRecord { previous_drawn: previous, report: false }
            },
            _ => {
                let report = self.report_failure(root, fingerprint);
                ExtractRecord { previous_drawn: false, report }
            },
        }
    }
}

} // verus!
