//! XR performance presets, the sampling state machine, frame-time statistics
//! and the UTC report timestamp. Durations and clock readings are integer
//! nanoseconds; the caller owns the clock and the report file.
use vstd::prelude::*;
use crate::text::{decimal, push_chars, push_zero_padded, signed_zero_padded, string_push, zero_padded};

verus! {

/// The canonical XR performance presets.
#[derive(Debug, Clone, Copy, PartialEq, Eq, Structural)]
pub enum VrPerfCase {
    AvatarNoSpringNoMirror,
    AvatarNoSpringMirror,
    AvatarSpringNoVizMirror,
    AvatarSpringVizMirror,
}

/// The command-line name of each preset.
pub open spec fn case_name(case: VrPerfCase) -> Seq<char> {
    match case {
        VrPerfCase::AvatarNoSpringNoMirror => "avatar_no_spring_no_mirror"@,
        VrPerfCase::AvatarNoSpringMirror => "avatar_no_spring_mirror"@,
        VrPerfCase::AvatarSpringNoVizMirror => "avatar_spring_no_viz_mirror"@,
        VrPerfCase::AvatarSpringVizMirror => "avatar_spring_viz_mirror"@,
    }
}

/// The presets in their canonical order.
pub open spec fn all_cases() -> Seq<VrPerfCase> {
    seq![
        VrPerfCase::AvatarNoSpringNoMirror,
        VrPerfCase::AvatarNoSpringMirror,
        VrPerfCase::AvatarSpringNoVizMirror,
        VrPerfCase::AvatarSpringVizMirror,
    ]
}

/// Distinct presets have distinct names, so parsing a preset's name gives
/// back that preset.
pub proof fn preset_names_identify_presets()
    ensures
        forall|a: VrPerfCase, b: VrPerfCase| case_name(a) == case_name(b) ==> a == b,
{
    reveal_strlit("avatar_no_spring_no_mirror");
    reveal_strlit("avatar_no_spring_mirror");
    reveal_strlit("avatar_spring_no_viz_mirror");
    reveal_strlit("avatar_spring_viz_mirror");
    assert("avatar_no_spring_no_mirror"@.len() == 26);
    assert("avatar_no_spring_mirror"@.len() == 23);
    assert("avatar_spring_no_viz_mirror"@.len() == 27);
    assert("avatar_spring_viz_mirror"@.len() == 24);
}

fn str_eq(a: &str, b: &str) -> (eq: bool)
    ensures
        eq <==> a@ == b@,
{
    let x = a.to_owned();
    let y = b.to_owned();
    x == y
}

impl VrPerfCase {
    pub const ALL: [VrPerfCase; 4] = [
        VrPerfCase::AvatarNoSpringNoMirror,
        VrPerfCase::AvatarNoSpringMirror,
        VrPerfCase::AvatarSpringNoVizMirror,
        VrPerfCase::AvatarSpringVizMirror,
    ];

    /// The preset whose name is `value`, if any.
    pub fn parse(value: &str) -> (r: Option<VrPerfCase>)
        ensures
            forall|case: VrPerfCase| r == Some(case) <==> value@ == case_name(case),
    {
        proof {
            reveal_strlit("avatar_no_spring_no_mirror");
            reveal_strlit("avatar_no_spring_mirror");
            reveal_strlit("avatar_spring_no_viz_mirror");
            reveal_strlit("avatar_spring_viz_mirror");
        }
        let cases = [
            VrPerfCase::AvatarNoSpringNoMirror,
            VrPerfCase::AvatarNoSpringMirror,
            VrPerfCase::AvatarSpringNoVizMirror,
            VrPerfCase::AvatarSpringVizMirror,
        ];
        let mut i: usize = 0;
        while i < 4
            invariant
                i <= 4,
                cases@ == all_cases(),
                forall|j: int| 0 <= j < i ==> value@ != case_name(#[trigger] all_cases()[j]),
            decreases 4 - i,
        {
            let case = cases[i];
            if str_eq(case.as_str(), value) {
                proof {
                    preset_names_identify_presets();
                }
                return Some(case);
            }
            i = i + 1;
        }
        proof {
            assert forall|case: VrPerfCase| value@ != case_name(case) by {
                match case {
                    VrPerfCase::AvatarNoSpringNoMirror => assert(all_cases()[0] == case),
                    VrPerfCase::AvatarNoSpringMirror => assert(all_cases()[1] == case),
                    VrPerfCase::AvatarSpringNoVizMirror => assert(all_cases()[2] == case),
                    VrPerfCase::AvatarSpringVizMirror => assert(all_cases()[3] == case),
                }
            }
        }
        None
    }

    pub fn as_str(self) -> (s: &'static str)
        ensures
            s@ == case_name(self),
    {
        match self {
            VrPerfCase::AvatarNoSpringNoMirror => "avatar_no_spring_no_mirror",
            VrPerfCase::AvatarNoSpringMirror => "avatar_no_spring_mirror",
            VrPerfCase::AvatarSpringNoVizMirror => "avatar_spring_no_viz_mirror",
            VrPerfCase::AvatarSpringVizMirror => "avatar_spring_viz_mirror",
        }
    }

    /// Every preset but the first renders the mirror.
    pub fn mirror(self) -> (b: bool)
        ensures
            b <==> self != VrPerfCase::AvatarNoSpringNoMirror,
    {
        !matches!(self, VrPerfCase::AvatarNoSpringNoMirror)
    }

    /// The spring presets simulate secondary motion.
    pub fn secondary_motion(self) -> (b: bool)
        ensures
            b <==> (self == VrPerfCase::AvatarSpringNoVizMirror || self == VrPerfCase::AvatarSpringVizMirror),
    {
        matches!(self, VrPerfCase::AvatarSpringNoVizMirror | VrPerfCase::AvatarSpringVizMirror)
    }

    /// Only the last preset draws the spring-bone visualization.
    pub fn visualization(self) -> (b: bool)
        ensures
            b <==> self == VrPerfCase::AvatarSpringVizMirror,
    {
        matches!(self, VrPerfCase::AvatarSpringVizMirror)
    }
}

/// Requested warm-up and sample durations for one preset run.
#[derive(Debug, Clone)]
pub struct VrPerfConfig {
    pub case: VrPerfCase,
    pub warmup_nanos: u64,
    pub sample_nanos: u64,
    pub report_dir: String,
}

impl VrPerfConfig {
    pub fn new(case: VrPerfCase, warmup_nanos: u64, sample_nanos: u64) -> (config: Self)
        ensures
            config.case == case,
            config.warmup_nanos == warmup_nanos,
            config.sample_nanos == sample_nanos,
            config.report_dir@ == "docs/.debug/vr_perf"@,
    {
        VrPerfConfig {
            case,
            warmup_nanos,
            sample_nanos,
            report_dir: "docs/.debug/vr_perf".to_owned(),
        }
    }
}

/// Environment facts printed in the report.
#[derive(Debug, Clone)]
pub struct VrPerfMetadata {
    pub build_profile: String,
    pub gpu_device: String,
    pub openxr_runtime: String,
    pub render_extent: [u32; 2],
    pub msaa: String,
}

/// Renderer counters of one headset frame.
#[derive(Debug, Clone, Copy, PartialEq, Eq, Structural)]
pub struct RendererPerfCounters {
    pub queue_submissions: u64,
    pub cpu_fence_waits: u64,
    pub cpu_queue_waits: u64,
    pub mirror_captures: u64,
    pub xr_eyes: u64,
    pub deformation_dispatches: u64,
    pub deformation_jobs: u64,
    pub deformation_workgroups: u64,
    pub deformation_dirty_vertices: u64,
    pub deformation_bone_upload_bytes: u64,
    pub deformation_job_upload_bytes: u64,
    pub deformation_weight_upload_bytes: u64,
}

/// CPU time of the update stages before the XR frame, in nanoseconds.
#[derive(Debug, Clone, Copy, PartialEq, Eq, Structural)]
pub struct VrPerfPreXrCpu {
    pub update_total: u64,
    pub final_command_processing: u64,
    pub secondary_motion: u64,
    pub spring_transform_propagation: u64,
    pub spring_visualization: u64,
    pub post_secondary_skinning: u64,
    pub post_pose_command_flush: u64,
    pub prepare_render: u64,
}

/// CPU time of one XR frame, in nanoseconds, and its renderer counters.
#[derive(Debug, Clone, Copy, PartialEq, Eq, Structural)]
pub struct VrPerfFrameCpu {
    pub pre_xr: VrPerfPreXrCpu,
    pub total: u64,
    pub wait_frame: u64,
    pub eye_render: u64,
    pub copy: u64,
    pub submit: u64,
    pub renderer: RendererPerfCounters,
}

/// Where the collector is in its run.
#[derive(Debug, Clone, Copy, PartialEq, Eq, Structural)]
pub enum VrPerfPhase {
    WaitingForResources,
    Warmup { started: u64 },
    Sampling { started: u64 },
    Complete,
}

/// What a presented frame caused.
#[derive(Debug, Clone, Copy, PartialEq, Eq, Structural)]
pub enum VrPerfStep {
    /// Nothing changed phase.
    Continue,
    /// Resources became ready; warm-up started.
    WarmupStarted,
    /// Warm-up elapsed; sampling started with empty sample buffers.
    SamplingStarted,
    /// Sampling elapsed; the report for `elapsed` nanoseconds is due.
    Complete { elapsed: u64 },
}

/// Collects headset frame times for one preset run.
#[derive(Debug)]
pub struct VrPerfCollector {
    config: VrPerfConfig,
    phase: VrPerfPhase,
    last_presented: Option<u64>,
    frame_times: Vec<u64>,
    display_intervals: Vec<u64>,
    cpu_frames: Vec<VrPerfFrameCpu>,
}

/// `now - earlier`, or zero when the clock reads earlier than `earlier`.
pub open spec fn elapsed_since(now: u64, earlier: u64) -> u64 {
    if now >= earlier {
        (now - earlier) as u64
    } else {
        0
    }
}

/// How a step moves the phase: a step completes exactly when it enters
/// `Complete`, and a complete run stays complete and quiet.
pub open spec fn phase_transition(p: VrPerfPhase, step: VrPerfStep, q: VrPerfPhase) -> bool {
    &&& (step is Complete <==> (p != VrPerfPhase::Complete && q == VrPerfPhase::Complete))
    &&& (p == VrPerfPhase::Complete ==> q == VrPerfPhase::Complete && step == VrPerfStep::Continue)
}

/// Over a run from a fresh collector, `phases[k]` the phase after `k`
/// frames and `steps[k]` what frame `k` returned: the collector is complete
/// after `k` frames exactly when one of them completed, and at most one does.
pub proof fn a_run_completes_at_most_once(phases: Seq<VrPerfPhase>, steps: Seq<VrPerfStep>)
    requires
        phases.len() == steps.len() + 1,
        phases[0] == VrPerfPhase::WaitingForResources,
        forall|k: int| 0 <= k < steps.len() ==> #[trigger] phase_transition(phases[k], steps[k], phases[k + 1]),
    ensures
        forall|k: int| 0 <= k <= steps.len() ==>
            (#[trigger] phases[k] == VrPerfPhase::Complete <==> exists|j: int| 0 <= j < k && #[trigger] steps[j] is Complete),
        forall|i: int, j: int| 0 <= i < j < steps.len() && #[trigger] steps[i] is Complete ==> !(#[trigger] steps[j] is Complete),
    decreases steps.len(),
{
    let n = steps.len() as int;
    if n > 0 {
        let ps = phases.take(n);
        let ss = steps.take(n - 1);
        assert forall|k: int| 0 <= k < ss.len() implies #[trigger] phase_transition(ps[k], ss[k], ps[k + 1]) by {
            assert(phase_transition(phases[k], steps[k], phases[k + 1]));
        }
        a_run_completes_at_most_once(ps, ss);
        assert forall|k: int| 0 <= k <= n implies
            (#[trigger] phases[k] == VrPerfPhase::Complete <==> exists|j: int| 0 <= j < k && #[trigger] steps[j] is Complete) by {
            if k < n {
                assert(ps[k] == phases[k]);
                if exists|j: int| 0 <= j < k && #[trigger] steps[j] is Complete {
                    let j = choose|j: int| 0 <= j < k && #[trigger] steps[j] is Complete;
                    assert(ss[j] == steps[j]);
                }
                if exists|j: int| 0 <= j < k && #[trigger] ss[j] is Complete {
                    let j = choose|j: int| 0 <= j < k && #[trigger] ss[j] is Complete;
                    assert(ss[j] == steps[j]);
                }
            } else {
                assert(phase_transition(phases[n - 1], steps[n - 1], phases[n]));
                assert(ps[n - 1] == phases[n - 1]);
                if exists|j: int| 0 <= j < n - 1 && #[trigger] steps[j] is Complete {
                    let j = choose|j: int| 0 <= j < n - 1 && #[trigger] steps[j] is Complete;
                    assert(ss[j] == steps[j]);
                }
                if exists|j: int| 0 <= j < n - 1 && #[trigger] ss[j] is Complete {
                    let j = choose|j: int| 0 <= j < n - 1 && #[trigger] ss[j] is Complete;
                    assert(ss[j] == steps[j]);
                }
            }
        }
        assert forall|i: int, j: int| 0 <= i < j < n && #[trigger] steps[i] is Complete implies !(#[trigger] steps[j] is Complete) by {
            if j < n - 1 {
                assert(ss[i] == steps[i] && ss[j] == steps[j]);
            } else {
                assert(ss[i] == steps[i]);
                assert(ps[n - 1] == phases[n - 1]);
                assert(phase_transition(phases[n - 1], steps[n - 1], phases[n]));
            }
        }
    }
}

impl VrPerfCollector {
    pub closed spec fn config_spec(&self) -> VrPerfConfig {
        self.config
    }

    pub closed spec fn phase_spec(&self) -> VrPerfPhase {
        self.phase
    }

    pub closed spec fn last_presented_spec(&self) -> Option<u64> {
        self.last_presented
    }

    /// Sampled frame times, in presentation order.
    pub closed spec fn frame_times_spec(&self) -> Seq<u64> {
        self.frame_times@
    }

    pub closed spec fn display_intervals_spec(&self) -> Seq<u64> {
        self.display_intervals@
    }

    pub closed spec fn cpu_frames_spec(&self) -> Seq<VrPerfFrameCpu> {
        self.cpu_frames@
    }

    /// The three sample buffers always hold one entry per sampled frame.
    pub closed spec fn wf(&self) -> bool {
        &&& self.frame_times@.len() == self.display_intervals@.len()
        &&& self.frame_times@.len() == self.cpu_frames@.len()
    }

    pub fn new(config: VrPerfConfig) -> (c: Self)
        ensures
            c.wf(),
            c.config_spec() == config,
            c.phase_spec() == VrPerfPhase::WaitingForResources,
            c.last_presented_spec() is None,
            c.frame_times_spec().len() == 0,
    {
        VrPerfCollector {
            config,
            phase: VrPerfPhase::WaitingForResources,
            last_presented: None,
            frame_times: Vec::new(),
            display_intervals: Vec::new(),
            cpu_frames: Vec::new(),
        }
    }

    pub fn case(&self) -> (case: VrPerfCase)
        ensures
            case == self.config_spec().case,
    {
        self.config.case
    }

    pub fn is_complete(&self) -> (b: bool)
        ensures
            b <==> self.phase_spec() == VrPerfPhase::Complete,
    {
        matches!(self.phase, VrPerfPhase::Complete)
    }

    pub fn phase(&self) -> (p: VrPerfPhase)
        ensures
            p == self.phase_spec(),
    {
        self.phase
    }

    pub fn config(&self) -> (c: &VrPerfConfig)
        ensures
            *c == self.config_spec(),
    {
        &self.config
    }

    /// Records one successfully submitted headset frame at clock reading
    /// `now`. `resources_ready` gates the warm-up clock, so asset upload and
    /// first-use work never enter warm-up.
    pub fn presented_frame(
        &mut self,
        now: u64,
        resources_ready: bool,
        display_interval: u64,
        cpu: VrPerfFrameCpu,
    ) -> (step: VrPerfStep)
        requires
            old(self).wf(),
        ensures
            final(self).wf(),
            final(self).config_spec() == old(self).config_spec(),
            phase_transition(old(self).phase_spec(), step, final(self).phase_spec()),
            match old(self).phase_spec() {
                VrPerfPhase::WaitingForResources => if resources_ready {
                    &&& step == VrPerfStep::WarmupStarted
                    &&& final(self).phase_spec() == VrPerfPhase::Warmup { started: now }
                    &&& final(self).last_presented_spec() == Some(now)
                    &&& final(self).frame_times_spec() == old(self).frame_times_spec()
                } else {
                    &&& step == VrPerfStep::Continue
                    &&& *final(self) == *old(self)
                },
                VrPerfPhase::Warmup { started } => if elapsed_since(now, started) >= old(self).config_spec().warmup_nanos {
                    &&& step == VrPerfStep::SamplingStarted
                    &&& final(self).phase_spec() == VrPerfPhase::Sampling { started: now }
                    &&& final(self).last_presented_spec() == Some(now)
                    &&& final(self).frame_times_spec().len() == 0
                } else {
                    &&& step == VrPerfStep::Continue
                    &&& final(self).phase_spec() == old(self).phase_spec()
                    &&& final(self).last_presented_spec() == Some(now)
                    &&& final(self).frame_times_spec() == old(self).frame_times_spec()
                },
                VrPerfPhase::Sampling { started } => {
                    &&& final(self).last_presented_spec() == Some(now)
                    &&& match old(self).last_presented_spec() {
                        Some(previous) => {
                            &&& final(self).frame_times_spec() == old(self).frame_times_spec().push(elapsed_since(now, previous))
                            &&& final(self).display_intervals_spec() == old(self).display_intervals_spec().push(display_interval)
                            &&& final(self).cpu_frames_spec() == old(self).cpu_frames_spec().push(cpu)
                        },
                        None => {
                            &&& final(self).frame_times_spec() == old(self).frame_times_spec()
                            &&& final(self).display_intervals_spec() == old(self).display_intervals_spec()
                            &&& final(self).cpu_frames_spec() == old(self).cpu_frames_spec()
                        },
                    }
                    &&& if elapsed_since(now, started) >= old(self).config_spec().sample_nanos {
                        &&& step == VrPerfStep::Complete { elapsed: elapsed_since(now, started) }
                        &&& final(self).phase_spec() == VrPerfPhase::Complete
                    } else {
                        &&& step == VrPerfStep::Continue
                        &&& final(self).phase_spec() == old(self).phase_spec()
                    }
                },
                VrPerfPhase::Complete => {
                    &&& step == VrPerfStep::Continue
                    &&& *final(self) == *old(self)
                },
            },
    {
        match self.phase {
            VrPerfPhase::WaitingForResources => {
                if resources_ready {
                    self.phase = VrPerfPhase::Warmup { started: now };
                    self.last_presented = Some(now);
                    VrPerfStep::WarmupStarted
                } else {
                    VrPerfStep::Continue
                }
            },
            VrPerfPhase::Warmup { started } => {
                if saturating_elapsed(now, started) >= self.config.warmup_nanos {
                    self.phase = VrPerfPhase::Sampling { started: now };
                    self.last_presented = Some(now);
                    self.frame_times.clear();
                    self.display_intervals.clear();
                    self.cpu_frames.clear();
                    VrPerfStep::SamplingStarted
                } else {
                    self.last_presented = Some(now);
                    VrPerfStep::Continue
                }
            },
            VrPerfPhase::Sampling { started } => {
                let previous = self.last_presented;
                self.last_presented = Some(now);
                if let Some(previous) = previous {
                    self.frame_times.push(saturating_elapsed(now, previous));
                    self.display_intervals.push(display_interval);
                    self.cpu_frames.push(cpu);
                }
                let elapsed = saturating_elapsed(now, started);
                if elapsed >= self.config.sample_nanos {
                    self.phase = VrPerfPhase::Complete;
                    VrPerfStep::Complete { elapsed }
                } else {
                    VrPerfStep::Continue
                }
            },
            VrPerfPhase::Complete => VrPerfStep::Continue,
        }
    }
}

fn saturating_elapsed(now: u64, earlier: u64) -> (d: u64)
    ensures
        d == elapsed_since(now, earlier),
{
    if now >= earlier {
        now - earlier
    } else {
        0
    }
}

// ---------------------------------------------------------------------------
// Frame-time statistics
// ---------------------------------------------------------------------------

/// Sum of a sequence of nanosecond counts.
pub open spec fn nanos_sum(s: Seq<u64>) -> int
    decreases s.len(),
{
    if s.len() == 0 {
        0
    } else {
        nanos_sum(s.drop_last()) + s.last()
    }
}

/// Ascending order.
pub open spec fn is_sorted(s: Seq<u64>) -> bool {
    forall|i: int, j: int| 0 <= i <= j < s.len() ==> s[i] <= s[j]
}

/// The nearest-rank index of the `percent`-th percentile among `n` sorted
/// samples: `ceil((n - 1) * percent / 100)`.
pub open spec fn percentile_index(n: nat, percent: nat) -> int {
    (((n - 1) * percent + 99) / 100) as int
}

/// Arithmetic mean of samples, truncated to whole nanoseconds.
pub fn mean_duration(samples: &[u64]) -> (mean: Option<u64>)
    ensures
        samples@.len() == 0 ==> mean is None,
        samples@.len() > 0 ==> mean == Some((nanos_sum(samples@) / (samples@.len() as int)) as u64),
{
    if samples.len() == 0 {
        return None;
    }
    let mut total: u128 = 0;
    let mut i: usize = 0;
    while i < samples.len()
        invariant
            i <= samples@.len(),
            total == nanos_sum(samples@.subrange(0, i as int)),
            total <= i * 0xFFFF_FFFF_FFFF_FFFFu64,
        decreases samples@.len() - i,
    {
        proof {
            assert(samples@.subrange(0, i + 1).drop_last() =~= samples@.subrange(0, i as int));
            assert(i * 0xFFFF_FFFF_FFFF_FFFFu64 + 0xFFFF_FFFF_FFFF_FFFFu64 == (i + 1) * 0xFFFF_FFFF_FFFF_FFFFu64) by (nonlinear_arith);
            assert((i + 1) * 0xFFFF_FFFF_FFFF_FFFFu64 <= 0x1_0000_0000_0000_0000 * 0xFFFF_FFFF_FFFF_FFFFu64) by (nonlinear_arith)
                requires
                    i + 1 <= 0x1_0000_0000_0000_0000;
        }
        total = total + samples[i] as u128;
        i = i + 1;
    }
    proof {
        assert(samples@.subrange(0, samples@.len() as int) =~= samples@);
        let n = samples@.len() as int;
        let q = total as int / n;
        vstd::arithmetic::div_mod::lemma_fundamental_div_mod(total as int, n);
        vstd::arithmetic::div_mod::lemma_mod_pos_bound(total as int, n);
        assert(q <= 0xFFFF_FFFF_FFFF_FFFFu64) by (nonlinear_arith)
            requires
                total <= n * 0xFFFF_FFFF_FFFF_FFFFu64,
                total == n * q + (total as int) % n,
                (total as int) % n >= 0,
                n > 0;
    }
    let mean = total / (samples.len() as u128);
    Some(mean as u64)
}

/// The samples in ascending order.
pub fn sorted_nanos(samples: &[u64]) -> (sorted: Vec<u64>)
    ensures
        is_sorted(sorted@),
        sorted@.to_multiset() == samples@.to_multiset(),
{
    let mut sorted: Vec<u64> = Vec::new();
    let mut i: usize = 0;
    assert(sorted@ =~= samples@.subrange(0, 0));
    while i < samples.len()
        invariant
            i <= samples@.len(),
            is_sorted(sorted@),
            sorted@.to_multiset() == samples@.subrange(0, i as int).to_multiset(),
        decreases samples@.len() - i,
    {
        let x = samples[i];
        let mut p: usize = 0;
        while p < sorted.len() && sorted[p] <= x
            invariant
                p <= sorted@.len(),
                forall|k: int| 0 <= k < p ==> sorted@[k] <= x,
            decreases sorted@.len() - p,
        {
            p = p + 1;
        }
        let ghost before = sorted@;
        sorted.insert(p, x);
        proof {
            assert(samples@.subrange(0, i + 1) =~= samples@.subrange(0, i as int).push(x));
            assert(sorted@ =~= before.insert(p as int, x));
            vstd::seq_lib::to_multiset_insert(before, p as int, x);
            vstd::seq_lib::to_multiset_build(samples@.subrange(0, i as int), x);
            assert(is_sorted(sorted@)) by {
                assert forall|a: int, b: int| 0 <= a <= b < sorted@.len() implies sorted@[a] <= sorted@[b] by {
                    if a < p && b < p {
                        assert(sorted@[a] == before[a] && sorted@[b] == before[b]);
                    } else if a < p && b == p {
                        assert(sorted@[a] == before[a]);
                    } else if a < p {
                        assert(sorted@[a] == before[a] && sorted@[b] == before[b - 1]);
                    } else if a == p && b > p {
                        assert(sorted@[b] == before[b - 1]);
                        assert(before[p as int] > x);
                    } else if a > p {
                        assert(sorted@[a] == before[a - 1] && sorted@[b] == before[b - 1]);
                    }
                }
            }
        }
        i = i + 1;
    }
    proof {
        assert(samples@.subrange(0, samples@.len() as int) =~= samples@);
    }
    sorted
}

/// Headset frame-time statistics, in nanoseconds.
#[derive(Debug, Clone, Copy, PartialEq, Eq, Structural)]
pub struct DurationStats {
    pub mean: u64,
    pub median: u64,
    pub p95: u64,
    pub p99: u64,
    pub min: u64,
    pub max: u64,
}

/// The sample at the nearest-rank `percent`-th percentile of sorted samples.
pub fn percentile(sorted: &[u64], percent: u64) -> (value: u64)
    requires
        sorted@.len() > 0,
        percent <= 100,
    ensures
        value == sorted@[percentile_index(sorted@.len(), percent as nat)],
{
    let n = sorted.len() as u128;
    proof {
        assert((n - 1) * (percent as int) <= (n - 1) * 100) by (nonlinear_arith)
            requires
                percent <= 100,
                n >= 1;
        assert(((n - 1) * (percent as int) + 99) / 100 <= n - 1) by (nonlinear_arith)
            requires
                (n - 1) * (percent as int) <= (n - 1) * 100,
                n >= 1;
    }
    let index = ((n - 1) * (percent as u128) + 99) / 100;
    sorted[index as usize]
}

impl DurationStats {
    /// Statistics of the samples, or none for no samples. Percentiles use
    /// the nearest rank `ceil((n - 1) * p)` in ascending order.
    pub fn from_samples(samples: &[u64]) -> (stats: Option<DurationStats>)
        ensures
            samples@.len() == 0 ==> stats is None,
            samples@.len() > 0 ==> exists|sorted: Seq<u64>| {
                &&& is_sorted(sorted)
                &&& #[trigger] sorted.to_multiset() == samples@.to_multiset()
                &&& sorted.len() == samples@.len()
                &&& stats == Some(DurationStats {
                    mean: (nanos_sum(samples@) / (samples@.len() as int)) as u64,
                    median: sorted[percentile_index(sorted.len(), 50)],
                    p95: sorted[percentile_index(sorted.len(), 95)],
                    p99: sorted[percentile_index(sorted.len(), 99)],
                    min: sorted[0],
                    max: sorted[sorted.len() - 1],
                })
            },
    {
        if samples.len() == 0 {
            return None;
        }
        let sorted = sorted_nanos(samples);
        proof {
            vstd::seq_lib::to_multiset_len(sorted@);
            vstd::seq_lib::to_multiset_len(samples@);
        }
        let mean = match mean_duration(samples) {
            Some(m) => m,
            None => 0,
        };
        let stats = DurationStats {
            mean,
            median: percentile(sorted.as_slice(), 50),
            p95: percentile(sorted.as_slice(), 95),
            p99: percentile(sorted.as_slice(), 99),
            min: sorted[0],
            max: sorted[sorted.len() - 1],
        };
        Some(stats)
    }
}

/// `"on"` or `"off"`.
pub fn on_off(value: bool) -> (s: &'static str)
    ensures
        value ==> s@ == "on"@,
        !value ==> s@ == "off"@,
{
    if value {
        "on"
    } else {
        "off"
    }
}

// ---------------------------------------------------------------------------
// UTC timestamps
// ---------------------------------------------------------------------------

/// Proleptic-Gregorian civil date `(year, month, day)` of a day count since
/// 1970-01-01 (Howard Hinnant's `civil_from_days`).
pub open spec fn civil_from_days_spec(days: int) -> (int, int, int) {
    let z = days + 719_468;
    let era = z / 146_097;
    let day_of_era = z - era * 146_097;
    let year_of_era = (day_of_era - day_of_era / 1_460 + day_of_era / 36_524 - day_of_era / 146_096) / 365;
    let day_of_year = day_of_era - (365 * year_of_era + year_of_era / 4 - year_of_era / 100);
    let month_prime = (5 * day_of_year + 2) / 153;
    let day = day_of_year - (153 * month_prime + 2) / 5 + 1;
    let month = if month_prime < 10 { month_prime + 3 } else { month_prime - 9 };
    let year = year_of_era + era * 400 + if month <= 2 { 1int } else { 0int };
    (year, month, day)
}

/// Civil date of `days_since_unix_epoch`.
pub fn civil_from_days(days_since_unix_epoch: i64) -> (ymd: (i64, i64, i64))
    requires
        -0x10_0000_0000_0000 <= days_since_unix_epoch <= 0x10_0000_0000_0000,
    ensures
        ymd.0 == civil_from_days_spec(days_since_unix_epoch as int).0,
        ymd.1 == civil_from_days_spec(days_since_unix_epoch as int).1,
        ymd.2 == civil_from_days_spec(days_since_unix_epoch as int).2,
        1 <= ymd.1 <= 12,
        1 <= ymd.2 <= 31,
{
    let z = days_since_unix_epoch + 719_468;
    let era = (if z >= 0 { z } else { z - 146_096 }) / 146_097;
    proof {
        let e = z as int / 146_097;
        assert(era == e) by (nonlinear_arith)
            requires
                z >= 0 ==> era == z / 146_097,
                z < 0 ==> era == -((-(z - 146_096)) / 146_097),
                e == z as int / 146_097,
        {
            if z < 0 {
                assert(z - 146_096 < 0);
            }
        }
    }
    let day_of_era = z - era * 146_097;
    assert(0 <= day_of_era < 146_097) by (nonlinear_arith)
        requires
            era == z as int / 146_097,
            day_of_era == z - era * 146_097;
    let year_of_era = (day_of_era - day_of_era / 1_460 + day_of_era / 36_524 - day_of_era / 146_096) / 365;
    let day_of_year = day_of_era - (365 * year_of_era + year_of_era / 4 - year_of_era / 100);
    assert(0 <= year_of_era <= 399 && 0 <= day_of_year <= 365) by (nonlinear_arith)
        requires
            0 <= day_of_era < 146_097,
            year_of_era == (day_of_era - day_of_era / 1_460 + day_of_era / 36_524 - day_of_era / 146_096) / 365,
            day_of_year == day_of_era - (365 * year_of_era + year_of_era / 4 - year_of_era / 100);
    let month_prime = (5 * day_of_year + 2) / 153;
    let day = day_of_year - (153 * month_prime + 2) / 5 + 1;
    assert(0 <= month_prime <= 11 && 1 <= day <= 31) by (nonlinear_arith)
        requires
            0 <= day_of_year <= 365,
            month_prime == (5 * day_of_year + 2) / 153,
            day == day_of_year - (153 * month_prime + 2) / 5 + 1;
    let month = month_prime + if month_prime < 10 { 3 } else { -9 };
    let mut year = year_of_era + era * 400;
    year = year + if month <= 2 { 1 } else { 0 };
    (year, month, day)
}

/// The report file timestamp `YYYYMMDD-HHMMSSZ` of a clock reading taken
/// `unix_seconds` after the Unix epoch (reinterpreted as a signed count).
pub open spec fn utc_timestamp_spec(unix_seconds: u64) -> Seq<char> {
    let total = unix_seconds as i64 as int;
    let days = total / 86_400;
    let seconds = total % 86_400;
    let (year, month, day) = civil_from_days_spec(days);
    signed_zero_padded(year, 4) + zero_padded(month as nat, 2) + zero_padded(day as nat, 2) + seq!['-']
        + zero_padded((seconds / 3_600) as nat, 2) + zero_padded(((seconds % 3_600) / 60) as nat, 2)
        + zero_padded((seconds % 60) as nat, 2) + seq!['Z']
}

/// Formats the UTC timestamp used in report file names.
pub fn utc_timestamp(unix_seconds: u64) -> (s: String)
    ensures
        s@ == utc_timestamp_spec(unix_seconds),
{
    let total = unix_seconds as i64;
    let q = total / 86_400;
    let r = total % 86_400;
    let (days, seconds) = if r < 0 { (q - 1, r + 86_400) } else { (q, r) };
    proof {
        assert(days == total as int / 86_400 && seconds == total as int % 86_400) by (nonlinear_arith)
            requires
                total >= 0 ==> q == total / 86_400 && r == total % 86_400,
                total < 0 ==> q == -((-total) / 86_400) && r == -((-total) % 86_400),
                r < 0 ==> days == q - 1 && seconds == r + 86_400,
                r >= 0 ==> days == q && seconds == r;
    }
    let (year, month, day) = civil_from_days(days);
    let hour = seconds / 3_600;
    let minute = (seconds % 3_600) / 60;
    let second = seconds % 60;
    let mut out = String::new();
    if year < 0 {
        string_push(&mut out, '-');
        push_zero_padded(&mut out, (-year) as u64, 3);
    } else {
        push_zero_padded(&mut out, year as u64, 4);
    }
    push_zero_padded(&mut out, month as u64, 2);
    push_zero_padded(&mut out, day as u64, 2);
    string_push(&mut out, '-');
    push_zero_padded(&mut out, hour as u64, 2);
    push_zero_padded(&mut out, minute as u64, 2);
    push_zero_padded(&mut out, second as u64, 2);
    string_push(&mut out, 'Z');
    out
}

// ---------------------------------------------------------------------------
// Report figures
// ---------------------------------------------------------------------------

/// Number of CPU timing rows in the report.
pub const CPU_TIMING_ROWS: usize = 13;
/// Number of renderer counter rows in the report.
pub const COUNTER_ROWS: usize = 12;

/// The CPU timing of report row `k`: the eight pre-XR stages, then the
/// total frame, `wait_frame`, eye render, swapchain copy and submit.
pub open spec fn cpu_field(frame: VrPerfFrameCpu, k: int) -> u64 {
    if k == 0 {
        frame.pre_xr.update_total
    } else if k == 1 {
        frame.pre_xr.final_command_processing
    } else if k == 2 {
        frame.pre_xr.secondary_motion
    } else if k == 3 {
        frame.pre_xr.spring_transform_propagation
    } else if k == 4 {
        frame.pre_xr.spring_visualization
    } else if k == 5 {
        frame.pre_xr.post_secondary_skinning
    } else if k == 6 {
        frame.pre_xr.post_pose_command_flush
    } else if k == 7 {
        frame.pre_xr.prepare_render
    } else if k == 8 {
        frame.total
    } else if k == 9 {
        frame.wait_frame
    } else if k == 10 {
        frame.eye_render
    } else if k == 11 {
        frame.copy
    } else {
        frame.submit
    }
}

/// The renderer counter of report row `k`, in report order.
pub open spec fn counter_field(c: RendererPerfCounters, k: int) -> u64 {
    if k == 0 {
        c.queue_submissions
    } else if k == 1 {
        c.cpu_fence_waits
    } else if k == 2 {
        c.cpu_queue_waits
    } else if k == 3 {
        c.mirror_captures
    } else if k == 4 {
        c.xr_eyes
    } else if k == 5 {
        c.deformation_dispatches
    } else if k == 6 {
        c.deformation_jobs
    } else if k == 7 {
        c.deformation_workgroups
    } else if k == 8 {
        c.deformation_dirty_vertices
    } else if k == 9 {
        c.deformation_bone_upload_bytes
    } else if k == 10 {
        c.deformation_job_upload_bytes
    } else {
        c.deformation_weight_upload_bytes
    }
}

/// Each report row reads one named timing or counter of every frame, in
/// the report's order: the eight pre-XR stages (update, final command
/// processing, secondary motion, spring transform propagation, spring
/// visualisation, post-secondary skinning, post-pose command flush, render
/// preparation), then the total XR frame, `wait_frame`, eye render,
/// swapchain copy and submit; and the renderer counters from queue
/// submissions to deformation weight upload bytes.
pub proof fn report_rows_read_their_named_fields(frames: Seq<VrPerfFrameCpu>)
    ensures
        cpu_column(frames, 0) == frames.map_values(|f: VrPerfFrameCpu| f.pre_xr.update_total),
        cpu_column(frames, 1) == frames.map_values(|f: VrPerfFrameCpu| f.pre_xr.final_command_processing),
        cpu_column(frames, 2) == frames.map_values(|f: VrPerfFrameCpu| f.pre_xr.secondary_motion),
        cpu_column(frames, 3) == frames.map_values(|f: VrPerfFrameCpu| f.pre_xr.spring_transform_propagation),
        cpu_column(frames, 4) == frames.map_values(|f: VrPerfFrameCpu| f.pre_xr.spring_visualization),
        cpu_column(frames, 5) == frames.map_values(|f: VrPerfFrameCpu| f.pre_xr.post_secondary_skinning),
        cpu_column(frames, 6) == frames.map_values(|f: VrPerfFrameCpu| f.pre_xr.post_pose_command_flush),
        cpu_column(frames, 7) == frames.map_values(|f: VrPerfFrameCpu| f.pre_xr.prepare_render),
        cpu_column(frames, 8) == frames.map_values(|f: VrPerfFrameCpu| f.total),
        cpu_column(frames, 9) == frames.map_values(|f: VrPerfFrameCpu| f.wait_frame),
        cpu_column(frames, 10) == frames.map_values(|f: VrPerfFrameCpu| f.eye_render),
        cpu_column(frames, 11) == frames.map_values(|f: VrPerfFrameCpu| f.copy),
        cpu_column(frames, 12) == frames.map_values(|f: VrPerfFrameCpu| f.submit),
        counter_column(frames, 0) == frames.map_values(|f: VrPerfFrameCpu| f.renderer.queue_submissions),
        counter_column(frames, 1) == frames.map_values(|f: VrPerfFrameCpu| f.renderer.cpu_fence_waits),
        counter_column(frames, 2) == frames.map_values(|f: VrPerfFrameCpu| f.renderer.cpu_queue_waits),
        counter_column(frames, 3) == frames.map_values(|f: VrPerfFrameCpu| f.renderer.mirror_captures),
        counter_column(frames, 4) == frames.map_values(|f: VrPerfFrameCpu| f.renderer.xr_eyes),
        counter_column(frames, 5) == frames.map_values(|f: VrPerfFrameCpu| f.renderer.deformation_dispatches),
        counter_column(frames, 6) == frames.map_values(|f: VrPerfFrameCpu| f.renderer.deformation_jobs),
        counter_column(frames, 7) == frames.map_values(|f: VrPerfFrameCpu| f.renderer.deformation_workgroups),
        counter_column(frames, 8) == frames.map_values(|f: VrPerfFrameCpu| f.renderer.deformation_dirty_vertices),
        counter_column(frames, 9) == frames.map_values(|f: VrPerfFrameCpu| f.renderer.deformation_bone_upload_bytes),
        counter_column(frames, 10) == frames.map_values(|f: VrPerfFrameCpu| f.renderer.deformation_job_upload_bytes),
        counter_column(frames, 11) == frames.map_values(|f: VrPerfFrameCpu| f.renderer.deformation_weight_upload_bytes),
{
    assert(cpu_column(frames, 0) =~= frames.map_values(|f: VrPerfFrameCpu| f.pre_xr.update_total));
    assert(cpu_column(frames, 1) =~= frames.map_values(|f: VrPerfFrameCpu| f.pre_xr.final_command_processing));
    assert(cpu_column(frames, 2) =~= frames.map_values(|f: VrPerfFrameCpu| f.pre_xr.secondary_motion));
    assert(cpu_column(frames, 3) =~= frames.map_values(|f: VrPerfFrameCpu| f.pre_xr.spring_transform_propagation));
    assert(cpu_column(frames, 4) =~= frames.map_values(|f: VrPerfFrameCpu| f.pre_xr.spring_visualization));
    assert(cpu_column(frames, 5) =~= frames.map_values(|f: VrPerfFrameCpu| f.pre_xr.post_secondary_skinning));
    assert(cpu_column(frames, 6) =~= frames.map_values(|f: VrPerfFrameCpu| f.pre_xr.post_pose_command_flush));
    assert(cpu_column(frames, 7) =~= frames.map_values(|f: VrPerfFrameCpu| f.pre_xr.prepare_render));
    assert(cpu_column(frames, 8) =~= frames.map_values(|f: VrPerfFrameCpu| f.total));
    assert(cpu_column(frames, 9) =~= frames.map_values(|f: VrPerfFrameCpu| f.wait_frame));
    assert(cpu_column(frames, 10) =~= frames.map_values(|f: VrPerfFrameCpu| f.eye_render));
    assert(cpu_column(frames, 11) =~= frames.map_values(|f: VrPerfFrameCpu| f.copy));
    assert(cpu_column(frames, 12) =~= frames.map_values(|f: VrPerfFrameCpu| f.submit));
    assert(counter_column(frames, 0) =~= frames.map_values(|f: VrPerfFrameCpu| f.renderer.queue_submissions));
    assert(counter_column(frames, 1) =~= frames.map_values(|f: VrPerfFrameCpu| f.renderer.cpu_fence_waits));
    assert(counter_column(frames, 2) =~= frames.map_values(|f: VrPerfFrameCpu| f.renderer.cpu_queue_waits));
    assert(counter_column(frames, 3) =~= frames.map_values(|f: VrPerfFrameCpu| f.renderer.mirror_captures));
    assert(counter_column(frames, 4) =~= frames.map_values(|f: VrPerfFrameCpu| f.renderer.xr_eyes));
    assert(counter_column(frames, 5) =~= frames.map_values(|f: VrPerfFrameCpu| f.renderer.deformation_dispatches));
    assert(counter_column(frames, 6) =~= frames.map_values(|f: VrPerfFrameCpu| f.renderer.deformation_jobs));
    assert(counter_column(frames, 7) =~= frames.map_values(|f: VrPerfFrameCpu| f.renderer.deformation_workgroups));
    assert(counter_column(frames, 8) =~= frames.map_values(|f: VrPerfFrameCpu| f.renderer.deformation_dirty_vertices));
    assert(counter_column(frames, 9) =~= frames.map_values(|f: VrPerfFrameCpu| f.renderer.deformation_bone_upload_bytes));
    assert(counter_column(frames, 10) =~= frames.map_values(|f: VrPerfFrameCpu| f.renderer.deformation_job_upload_bytes));
    assert(counter_column(frames, 11) =~= frames.map_values(|f: VrPerfFrameCpu| f.renderer.deformation_weight_upload_bytes));
}

fn cpu_field_of(frame: &VrPerfFrameCpu, k: usize) -> (v: u64)
    ensures
        v == cpu_field(*frame, k as int),
{
    match k {
        0 => frame.pre_xr.update_total,
        1 => frame.pre_xr.final_command_processing,
        2 => frame.pre_xr.secondary_motion,
        3 => frame.pre_xr.spring_transform_propagation,
        4 => frame.pre_xr.spring_visualization,
        5 => frame.pre_xr.post_secondary_skinning,
        6 => frame.pre_xr.post_pose_command_flush,
        7 => frame.pre_xr.prepare_render,
        8 => frame.total,
        9 => frame.wait_frame,
        10 => frame.eye_render,
        11 => frame.copy,
        _ => frame.submit,
    }
}

fn counter_field_of(c: &RendererPerfCounters, k: usize) -> (v: u64)
    ensures
        v == counter_field(*c, k as int),
{
    match k {
        0 => c.queue_submissions,
        1 => c.cpu_fence_waits,
        2 => c.cpu_queue_waits,
        3 => c.mirror_captures,
        4 => c.xr_eyes,
        5 => c.deformation_dispatches,
        6 => c.deformation_jobs,
        7 => c.deformation_workgroups,
        8 => c.deformation_dirty_vertices,
        9 => c.deformation_bone_upload_bytes,
        10 => c.deformation_job_upload_bytes,
        _ => c.deformation_weight_upload_bytes,
    }
}

/// Row `k` of the CPU timings across frames.
pub open spec fn cpu_column(frames: Seq<VrPerfFrameCpu>, k: int) -> Seq<u64> {
    Seq::new(frames.len(), |i: int| cpu_field(frames[i], k))
}

/// Row `k` of the renderer counters across frames.
pub open spec fn counter_column(frames: Seq<VrPerfFrameCpu>, k: int) -> Seq<u64> {
    Seq::new(frames.len(), |i: int| counter_field(frames[i].renderer, k))
}

/// Number of samples strictly longer than `limit`.
pub open spec fn count_over(s: Seq<u64>, limit: u64) -> nat
    decreases s.len(),
{
    if s.len() == 0 {
        0
    } else {
        count_over(s.drop_last(), limit) + if s.last() > limit { 1nat } else { 0nat }
    }
}

/// The mean of `s`, or none when empty.
pub open spec fn mean_of(s: Seq<u64>) -> Option<u64> {
    if s.len() == 0 {
        None
    } else {
        Some((nanos_sum(s) / (s.len() as int)) as u64)
    }
}

/// The integer figures of a finished run; rendering them as text is the caller's.
#[derive(Debug, Clone)]
pub struct VrPerfReportSummary {
    pub frame_count: usize,
    pub stats: Option<DurationStats>,
    /// Mean runtime display interval.
    pub target: Option<u64>,
    /// Frames that took longer than `target`.
    pub missed: usize,
    /// Mean of each CPU timing row.
    pub cpu_means: Vec<Option<u64>>,
    /// Total of each renderer counter row.
    pub counter_totals: Vec<u64>,
}

fn column(frames: &Vec<VrPerfFrameCpu>, k: usize, counters: bool) -> (col: Vec<u64>)
    ensures
        counters ==> col@ == counter_column(frames@, k as int),
        !counters ==> col@ == cpu_column(frames@, k as int),
{
    let mut col: Vec<u64> = Vec::new();
    let mut i: usize = 0;
    while i < frames.len()
        invariant
            i <= frames@.len(),
            counters ==> col@ == counter_column(frames@, k as int).subrange(0, i as int),
            !counters ==> col@ == cpu_column(frames@, k as int).subrange(0, i as int),
        decreases frames@.len() - i,
    {
        let v = if counters {
            counter_field_of(&frames[i].renderer, k)
        } else {
            cpu_field_of(&frames[i], k)
        };
        col.push(v);
        proof {
            assert(counter_column(frames@, k as int).subrange(0, i + 1) =~= counter_column(frames@, k as int).subrange(0, i as int).push(counter_field(frames@[i as int].renderer, k as int)));
            assert(cpu_column(frames@, k as int).subrange(0, i + 1) =~= cpu_column(frames@, k as int).subrange(0, i as int).push(cpu_field(frames@[i as int], k as int)));
        }
        i = i + 1;
    }
    proof {
        assert(counter_column(frames@, k as int).subrange(0, i as int) =~= counter_column(frames@, k as int));
        assert(cpu_column(frames@, k as int).subrange(0, i as int) =~= cpu_column(frames@, k as int));
    }
    col
}

fn total_of(s: &Vec<u64>) -> (total: u64)
    requires
        nanos_sum(s@) <= u64::MAX,
    ensures
        total == nanos_sum(s@),
{
    let mut total: u64 = 0;
    let mut i: usize = 0;
    while i < s.len()
        invariant
            i <= s@.len(),
            total == nanos_sum(s@.subrange(0, i as int)),
            nanos_sum(s@) <= u64::MAX,
        decreases s@.len() - i,
    {
        proof {
            assert(s@.subrange(0, i + 1).drop_last() =~= s@.subrange(0, i as int));
            lemma_nanos_sum_prefix(s@, i + 1);
        }
        total = total + s[i];
        i = i + 1;
    }
    proof {
        assert(s@.subrange(0, i as int) =~= s@);
    }
    total
}

proof fn lemma_nanos_sum_prefix(s: Seq<u64>, k: int)
    requires
        0 <= k <= s.len(),
    ensures
        nanos_sum(s.subrange(0, k)) <= nanos_sum(s),
        nanos_sum(s.subrange(0, k)) >= 0,
    decreases s.len(),
{
    if k == s.len() {
        assert(s.subrange(0, k) =~= s);
        if s.len() > 0 {
            lemma_nanos_sum_prefix(s.drop_last(), 0);
            assert(s.drop_last().subrange(0, 0) =~= Seq::<u64>::empty());
        }
    } else {
        lemma_nanos_sum_prefix(s.drop_last(), k);
        assert(s.drop_last().subrange(0, k) =~= s.subrange(0, k));
    }
}

fn count_over_limit(s: &Vec<u64>, limit: u64) -> (n: usize)
    ensures
        n == count_over(s@, limit),
{
    let mut n: usize = 0;
    let mut i: usize = 0;
    while i < s.len()
        invariant
            i <= s@.len(),
            n == count_over(s@.subrange(0, i as int), limit),
            n <= i,
        decreases s@.len() - i,
    {
        proof {
            assert(s@.subrange(0, i + 1).drop_last() =~= s@.subrange(0, i as int));
        }
        if s[i] > limit {
            n = n + 1;
        }
        i = i + 1;
    }
    proof {
        assert(s@.subrange(0, i as int) =~= s@);
    }
    n
}

/// Whether the samples of `s` sum to a `u64`.
fn sum_fits(s: &Vec<u64>) -> (b: bool)
    ensures
        b == (nanos_sum(s@) <= u64::MAX),
{
    let mut total: u64 = 0;
    let mut i: usize = 0;
    while i < s.len()
        invariant
            i <= s@.len(),
            total == nanos_sum(s@.subrange(0, i as int)),
        decreases s@.len() - i,
    {
        proof {
            assert(s@.subrange(0, i + 1).drop_last() =~= s@.subrange(0, i as int));
        }
        match total.checked_add(s[i]) {
            Some(t) => {
                total = t;
            },
            None => {
                proof {
                    lemma_nanos_sum_prefix(s@, i + 1);
                }
                return false;
            },
        }
        i = i + 1;
    }
    proof {
        assert(s@.subrange(0, i as int) =~= s@);
    }
    true
}

impl VrPerfCollector {
    /// Whether every renderer counter row sums to a `u64`, so that the report
    /// summary can be taken.
    pub fn counters_fit_now(&self) -> (b: bool)
        ensures
            b == self.counters_fit(),
    {
        let mut k: usize = 0;
        while k < 12
            invariant
                k <= 12,
                forall|j: int| 0 <= j < k ==> nanos_sum(#[trigger] counter_column(self.cpu_frames_spec(), j)) <= u64::MAX,
            decreases 12 - k,
        {
            let col = column(&self.cpu_frames, k, true);
            if !sum_fits(&col) {
                proof {
                    assert(nanos_sum(counter_column(self.cpu_frames_spec(), k as int)) > u64::MAX);
                }
                return false;
            }
            k = k + 1;
        }
        true
    }

    /// Every renderer counter row sums to a `u64`.
    pub open spec fn counters_fit(&self) -> bool {
        forall|k: int| 0 <= k < 12 ==> nanos_sum(#[trigger] counter_column(self.cpu_frames_spec(), k)) <= u64::MAX
    }

    /// The figures of the report for the samples collected so far.
    pub fn report_summary(&self) -> (summary: VrPerfReportSummary)
        requires
            self.wf(),
            self.counters_fit(),
        ensures
            summary.frame_count == self.frame_times_spec().len(),
            self.frame_times_spec().len() == 0 ==> summary.stats is None,
            self.frame_times_spec().len() > 0 ==> summary.stats is Some,
            summary.target == mean_of(self.display_intervals_spec()),
            summary.missed == match summary.target {
                Some(interval) => count_over(self.frame_times_spec(), interval),
                None => 0,
            },
            summary.cpu_means@.len() == 13,
            forall|k: int| 0 <= k < 13 ==> #[trigger] summary.cpu_means@[k] == mean_of(cpu_column(self.cpu_frames_spec(), k)),
            summary.cpu_means@[0] == mean_of(self.cpu_frames_spec().map_values(|f: VrPerfFrameCpu| f.pre_xr.update_total)),
            summary.cpu_means@[1] == mean_of(self.cpu_frames_spec().map_values(|f: VrPerfFrameCpu| f.pre_xr.final_command_processing)),
            summary.cpu_means@[2] == mean_of(self.cpu_frames_spec().map_values(|f: VrPerfFrameCpu| f.pre_xr.secondary_motion)),
            summary.cpu_means@[3] == mean_of(self.cpu_frames_spec().map_values(|f: VrPerfFrameCpu| f.pre_xr.spring_transform_propagation)),
            summary.cpu_means@[4] == mean_of(self.cpu_frames_spec().map_values(|f: VrPerfFrameCpu| f.pre_xr.spring_visualization)),
            summary.cpu_means@[5] == mean_of(self.cpu_frames_spec().map_values(|f: VrPerfFrameCpu| f.pre_xr.post_secondary_skinning)),
            summary.cpu_means@[6] == mean_of(self.cpu_frames_spec().map_values(|f: VrPerfFrameCpu| f.pre_xr.post_pose_command_flush)),
            summary.cpu_means@[7] == mean_of(self.cpu_frames_spec().map_values(|f: VrPerfFrameCpu| f.pre_xr.prepare_render)),
            summary.cpu_means@[8] == mean_of(self.cpu_frames_spec().map_values(|f: VrPerfFrameCpu| f.total)),
            summary.cpu_means@[9] == mean_of(self.cpu_frames_spec().map_values(|f: VrPerfFrameCpu| f.wait_frame)),
            summary.cpu_means@[10] == mean_of(self.cpu_frames_spec().map_values(|f: VrPerfFrameCpu| f.eye_render)),
            summary.cpu_means@[11] == mean_of(self.cpu_frames_spec().map_values(|f: VrPerfFrameCpu| f.copy)),
            summary.cpu_means@[12] == mean_of(self.cpu_frames_spec().map_values(|f: VrPerfFrameCpu| f.submit)),
            summary.counter_totals@.len() == 12,
            forall|k: int| 0 <= k < 12 ==> #[trigger] summary.counter_totals@[k] == nanos_sum(counter_column(self.cpu_frames_spec(), k)),
    {
        proof {
            report_rows_read_their_named_fields(self.cpu_frames_spec());
        }
        let stats = DurationStats::from_samples(self.frame_times.as_slice());
        let target = mean_duration(self.display_intervals.as_slice());
        let missed = match target {
            Some(interval) => count_over_limit(&self.frame_times, interval),
            None => 0,
        };
        let mut cpu_means: Vec<Option<u64>> = Vec::new();
        let mut k: usize = 0;
        while k < 13
            invariant
                k <= 13,
                cpu_means@.len() == k,
                forall|j: int| 0 <= j < k ==> #[trigger] cpu_means@[j] == mean_of(cpu_column(self.cpu_frames_spec(), j)),
            decreases 13 - k,
        {
            let col = column(&self.cpu_frames, k, false);
            cpu_means.push(mean_duration(col.as_slice()));
            k = k + 1;
        }
        let mut counter_totals: Vec<u64> = Vec::new();
        let mut k: usize = 0;
        while k < 12
            invariant
                k <= 12,
                self.counters_fit(),
                counter_totals@.len() == k,
                forall|j: int| 0 <= j < k ==> #[trigger] counter_totals@[j] == nanos_sum(counter_column(self.cpu_frames_spec(), j)),
            decreases 12 - k,
        {
            let col = column(&self.cpu_frames, k, true);
            proof {
                assert(nanos_sum(counter_column(self.cpu_frames_spec(), k as int)) <= u64::MAX);
            }
            counter_totals.push(total_of(&col));
            k = k + 1;
        }
        VrPerfReportSummary {
            frame_count: self.frame_times.len(),
            stats,
            target,
            missed,
            cpu_means,
            counter_totals,
        }
    }
}

/// `i` is the position of the last `.` of `f`.
pub open spec fn last_dot_at(f: Seq<char>, i: int) -> bool {
    &&& 0 <= i < f.len()
    &&& f[i] == '.'
    &&& forall|j: int| i < j < f.len() ==> #[trigger] f[j] != '.'
}

/// A file name split at its last `.` into stem and extension; without a
/// `.` the whole name is the stem and the extension is empty.
pub open spec fn stem_and_extension(f: Seq<char>) -> (Seq<char>, Seq<char>) {
    if exists|i: int| last_dot_at(f, i) {
        let i = choose|i: int| last_dot_at(f, i);
        (f.subrange(0, i), f.subrange(i + 1, f.len() as int))
    } else {
        (f, Seq::empty())
    }
}

/// The `suffix`-th alternative to file name `f`: `{stem}__{suffix}.{ext}`,
/// or `{stem}__{suffix}` when the extension is empty.
pub open spec fn numbered_name(f: Seq<char>, suffix: nat) -> Seq<char> {
    let (stem, ext) = stem_and_extension(f);
    if ext.len() == 0 {
        stem + "__"@ + decimal(suffix)
    } else {
        stem + "__"@ + decimal(suffix) + "."@ + ext
    }
}

/// The name under which a report is saved when `filename` already exists
/// and earlier numbered alternatives are taken too.
pub fn numbered_report_name(filename: &str, suffix: u32) -> (name: String)
    ensures
        name@ == numbered_name(filename@, suffix as nat),
{
    let n = filename.unicode_len();
    let mut k = n;
    while k > 0
        invariant
            k <= n,
            n == filename@.len(),
            forall|j: int| k <= j < n ==> #[trigger] filename@[j] != '.',
        ensures
            k <= n,
            forall|j: int| k <= j < n ==> #[trigger] filename@[j] != '.',
            k == 0 || filename@[k - 1] == '.',
        decreases k,
    {
        if filename.get_char(k - 1) == '.' {
            break;
        }
        k -= 1;
    }
    let mut out = String::new();
    if k == 0 {
        proof {
            assert forall|i: int| !last_dot_at(filename@, i) by {
                if last_dot_at(filename@, i) {
                    assert(filename@[i] != '.');
                }
            }
        }
        push_chars(&mut out, filename);
        push_chars(&mut out, "__");
        push_zero_padded(&mut out, suffix as u64, 0);
        return out;
    }
    let dot = k - 1;
    proof {
        assert(last_dot_at(filename@, dot as int));
        assert forall|i: int| last_dot_at(filename@, i) implies i == dot by {
            if i < dot {
                assert(filename@[dot as int] != '.');
            } else if i > dot {
                assert(filename@[i] != '.');
            }
        }
    }
    let stem = filename.substring_char(0, dot);
    let ext = filename.substring_char(dot + 1, n);
    push_chars(&mut out, stem);
    push_chars(&mut out, "__");
    push_zero_padded(&mut out, suffix as u64, 0);
    if n > dot + 1 {
        push_chars(&mut out, ".");
        push_chars(&mut out, ext);
    }
    out
}

/// The report file name `{timestamp}__{preset}.md`.
pub fn report_file_name(timestamp: &str, case: VrPerfCase) -> (name: String)
    ensures
        name@ == timestamp@ + "__"@ + case_name(case) + ".md"@,
{
    let mut out = String::new();
    push_chars(&mut out, timestamp);
    push_chars(&mut out, "__");
    push_chars(&mut out, case.as_str());
    push_chars(&mut out, ".md");
    out
}

} // verus!
