//! CPU-side scheduling for compute-cached mesh deformation: the workgroup
//! indirection table and the stable first-fit vertex range allocator.
use vstd::prelude::*;

verus! {

/// Number of vertices processed by one compute workgroup.
pub const DEFORMATION_LOCAL_SIZE_X: u32 = 64;

/// Largest vertex count of one job whose workgroup offsets all fit in `u32`.
pub const MAX_JOB_VERTEX_COUNT: u32 = 4294967232;

/// One deformation job as laid out for the compute shader.
#[derive(Clone, Copy, Debug, PartialEq, Eq, Structural)]
pub struct GpuDeformationJob {
    pub base_vertex: u32,
    pub skin_vertex: u32,
    pub output_vertex: u32,
    pub vertex_count: u32,
    pub bones_base: u32,
    pub bones_count: u32,
    pub active_morph_base: u32,
    pub active_morph_count: u32,
}

impl Default for GpuDeformationJob {
    fn default() -> (job: Self)
        ensures
            job.base_vertex == 0 && job.skin_vertex == 0 && job.output_vertex == 0,
            job.vertex_count == 0 && job.bones_base == 0 && job.bones_count == 0,
            job.active_morph_base == 0 && job.active_morph_count == 0,
    {
        GpuDeformationJob {
            base_vertex: 0,
            skin_vertex: 0,
            output_vertex: 0,
            vertex_count: 0,
            bones_base: 0,
            bones_count: 0,
            active_morph_base: 0,
            active_morph_count: 0,
        }
    }
}

/// One indirection record: which job a workgroup serves and its first vertex.
#[derive(Clone, Copy, Debug, PartialEq, Eq, Structural)]
pub struct GpuDeformationWorkgroup {
    pub job_index: u32,
    pub first_vertex: u32,
}

impl Default for GpuDeformationWorkgroup {
    fn default() -> (w: Self)
        ensures
            w.job_index == 0 && w.first_vertex == 0,
    {
        GpuDeformationWorkgroup { job_index: 0, first_vertex: 0 }
    }
}

/// A contiguous range of cache vertices `[base, base + vertex_count)`.
#[derive(Clone, Copy, Debug, PartialEq, Eq, Structural)]
pub struct DeformationRange {
    pub base: u32,
    pub vertex_count: u32,
}

impl Default for DeformationRange {
    fn default() -> (r: Self)
        ensures
            r.base == 0 && r.vertex_count == 0,
    {
        DeformationRange { base: 0, vertex_count: 0 }
    }
}

/// Number of workgroups a job of `vertex_count` vertices needs.
pub open spec fn workgroup_count(vertex_count: u32) -> nat {
    ((vertex_count as nat + 63) / 64) as nat
}

/// The workgroups of the job at position `job_index`, in vertex order.
pub open spec fn job_workgroups(job_index: int, vertex_count: u32) -> Seq<GpuDeformationWorkgroup> {
    Seq::new(
        workgroup_count(vertex_count),
        |k: int| GpuDeformationWorkgroup { job_index: job_index as u32, first_vertex: (k * 64) as u32 },
    )
}

/// The full indirection table for `jobs`: each job's workgroups, jobs in order.
pub open spec fn workgroups_for(jobs: Seq<GpuDeformationJob>) -> Seq<GpuDeformationWorkgroup>
    decreases jobs.len(),
{
    if jobs.len() == 0 {
        Seq::empty()
    } else {
        workgroups_for(jobs.drop_last()) + job_workgroups(
            jobs.len() - 1,
            jobs.last().vertex_count,
        )
    }
}

/// Builds the indirection records consumed by a single one-dimensional compute dispatch.
pub fn build_workgroups(jobs: &[GpuDeformationJob]) -> (workgroups: Vec<GpuDeformationWorkgroup>)
    requires
        forall|j: int| 0 <= j < jobs@.len() ==> #[trigger] jobs@[j].vertex_count <= MAX_JOB_VERTEX_COUNT,
    ensures
        workgroups@ == workgroups_for(jobs@),
{
    let mut workgroups: Vec<GpuDeformationWorkgroup> = Vec::new();
    let mut job_index: usize = 0;
    while job_index < jobs.len()
        invariant
            job_index <= jobs@.len(),
            forall|j: int| 0 <= j < jobs@.len() ==> #[trigger] jobs@[j].vertex_count <= MAX_JOB_VERTEX_COUNT,
            workgroups@ == workgroups_for(jobs@.subrange(0, job_index as int)),
        decreases jobs@.len() - job_index,
    {
        let job = jobs[job_index];
        let ghost before = workgroups@;
        let mut first_vertex: u32 = 0;
        let mut k: u32 = 0;
        while first_vertex < job.vertex_count
            invariant
                job.vertex_count <= MAX_JOB_VERTEX_COUNT,
                first_vertex == k * 64,
                k <= workgroup_count(job.vertex_count),
                k < workgroup_count(job.vertex_count) <==> first_vertex < job.vertex_count,
                workgroups@ == before + job_workgroups(job_index as int, job.vertex_count).subrange(0, k as int),
            decreases workgroup_count(job.vertex_count) - k,
        {
            workgroups.push(GpuDeformationWorkgroup { job_index: #[verifier::truncate] (job_index as u32), first_vertex });
            proof {
                assert(job_workgroups(job_index as int, job.vertex_count).subrange(0, k + 1)
                    =~= job_workgroups(job_index as int, job.vertex_count).subrange(0, k as int).push(
                    GpuDeformationWorkgroup { job_index: job_index as u32, first_vertex }));
            }
            first_vertex = first_vertex + DEFORMATION_LOCAL_SIZE_X;
            k = k + 1;
        }
        proof {
            assert(job_workgroups(job_index as int, job.vertex_count).subrange(0, k as int)
                =~= job_workgroups(job_index as int, job.vertex_count));
            let s = jobs@.subrange(0, job_index + 1);
            assert(s.drop_last() =~= jobs@.subrange(0, job_index as int));
        }
        job_index = job_index + 1;
    }
    proof {
        assert(jobs@.subrange(0, jobs@.len() as int) =~= jobs@);
    }
    workgroups
}

// ---------------------------------------------------------------------------
// Free-list model
// ---------------------------------------------------------------------------

/// One past the last vertex of `r`.
pub open spec fn range_end(r: DeformationRange) -> int {
    r.base + r.vertex_count
}

/// A free list is canonical: non-empty ranges inside the address space,
/// sorted by base, and never touching (touching ranges are always coalesced).
pub open spec fn free_list_wf(s: Seq<DeformationRange>, capacity: u32) -> bool {
    &&& forall|i: int|
        0 <= i < s.len() ==> #[trigger] s[i].vertex_count > 0 && range_end(s[i]) <= capacity
    &&& forall|i: int, j: int| #![trigger s[i], s[j]] 0 <= i < j < s.len() ==> range_end(s[i]) < s[j].base
}

/// Total number of free vertices.
pub open spec fn free_total(s: Seq<DeformationRange>) -> int
    decreases s.len(),
{
    if s.len() == 0 {
        0
    } else {
        free_total(s.drop_last()) + s.last().vertex_count
    }
}

/// Vertex `a` lies in some free range.
pub open spec fn is_free(s: Seq<DeformationRange>, a: int) -> bool {
    exists|i: int| 0 <= i < s.len() && #[trigger] s[i].base <= a < range_end(s[i])
}

/// Some free range can hold `vertex_count` vertices.
pub open spec fn fits(s: Seq<DeformationRange>, vertex_count: u32) -> bool {
    exists|i: int| 0 <= i < s.len() && #[trigger] s[i].vertex_count >= vertex_count
}

/// The smallest power of two that is at least `x` (starting the search at `p`).
pub open spec fn pow2_at_least(x: nat, p: nat) -> nat
    decreases (if x > p { x - p } else { 0 }),
    when p > 0
{
    if p >= x {
        p
    } else {
        pow2_at_least(x, 2 * p)
    }
}

/// `u32::next_power_of_two` on the mathematical integers.
pub open spec fn next_pow2(x: nat) -> nat {
    pow2_at_least(x, 1)
}

/// `2^k`.
pub open spec fn pow2n(k: nat) -> nat
    decreases k,
{
    if k == 0 {
        1
    } else {
        2 * pow2n((k - 1) as nat)
    }
}

proof fn lemma_pow2n_monotonic(j: nat, k: nat)
    requires
        j <= k,
    ensures
        pow2n(j) <= pow2n(k),
    decreases k - j,
{
    if j < k {
        lemma_pow2n_monotonic(j, (k - 1) as nat);
    }
}

proof fn lemma_pow2_at_least_bounds(x: nat, p: nat)
    requires
        p > 0,
    ensures
        pow2_at_least(x, p) >= x,
        pow2_at_least(x, p) >= p,
    decreases (if x > p { x - p } else { 0 }),
{
    if p < x {
        lemma_pow2_at_least_bounds(x, 2 * p);
    }
}

/// `u32::next_power_of_two`, for arguments whose result fits in `u32`.
fn next_power_of_two(x: u32) -> (p: u32)
    requires
        x <= 0x8000_0000,
    ensures
        p == next_pow2(x as nat),
{
    let mut p: u32 = 1;
    let ghost mut k: nat = 0;
    assert(pow2n(31) == 0x8000_0000) by {
        reveal_with_fuel(pow2n, 32);
    }
    while p < x
        invariant
            x <= 0x8000_0000,
            p == pow2n(k),
            p > 0,
            k <= 31,
            p <= 0x8000_0000,
            pow2_at_least(x as nat, p as nat) == next_pow2(x as nat),
            pow2n(31) == 0x8000_0000,
        decreases 0x8000_0000 - p,
    {
        proof {
            if k >= 31 {
                lemma_pow2n_monotonic(31, k);
            }
            lemma_pow2n_monotonic(k + 1, 31);
        }
        p = p * 2;
        proof {
            k = k + 1;
        }
    }
    p
}

proof fn lemma_free_total_remove(s: Seq<DeformationRange>, i: int)
    requires
        0 <= i < s.len(),
    ensures
        free_total(s.remove(i)) == free_total(s) - s[i].vertex_count,
    decreases s.len(),
{
    if i == s.len() - 1 {
        assert(s.remove(i) =~= s.drop_last());
    } else {
        lemma_free_total_remove(s.drop_last(), i);
        assert(s.remove(i).drop_last() =~= s.drop_last().remove(i));
    }
}

proof fn lemma_free_total_update(s: Seq<DeformationRange>, i: int, r: DeformationRange)
    requires
        0 <= i < s.len(),
    ensures
        free_total(s.update(i, r)) == free_total(s) - s[i].vertex_count + r.vertex_count,
    decreases s.len(),
{
    if i == s.len() - 1 {
        assert(s.update(i, r).drop_last() =~= s.drop_last());
    } else {
        lemma_free_total_update(s.drop_last(), i, r);
        assert(s.update(i, r).drop_last() =~= s.drop_last().update(i, r));
    }
}

proof fn lemma_free_total_insert(s: Seq<DeformationRange>, i: int, r: DeformationRange)
    requires
        0 <= i <= s.len(),
    ensures
        free_total(s.insert(i, r)) == free_total(s) + r.vertex_count,
    decreases s.len(),
{
    if i == s.len() {
        assert(s.insert(i, r).drop_last() =~= s);
    } else {
        lemma_free_total_insert(s.drop_last(), i, r);
        assert(s.insert(i, r).drop_last() =~= s.drop_last().insert(i, r));
    }
}

proof fn lemma_free_total_push(s: Seq<DeformationRange>, r: DeformationRange)
    ensures
        free_total(s.push(r)) == free_total(s) + r.vertex_count,
{
    assert(s.push(r).drop_last() =~= s);
}

/// A canonical free list never holds more vertices than its address space.
proof fn lemma_free_total_bound(s: Seq<DeformationRange>, capacity: u32)
    requires
        free_list_wf(s, capacity),
    ensures
        free_total(s) <= if s.len() == 0 { 0 } else { range_end(s.last()) },
        free_total(s) <= capacity,
        free_total(s) >= 0,
    decreases s.len(),
{
    if s.len() > 0 {
        let t = s.drop_last();
        assert(free_list_wf(t, capacity)) by {
            assert forall|i: int, j: int| #![trigger t[i], t[j]] 0 <= i < j < t.len() implies range_end(t[i]) < t[j].base by {
                assert(t[i] == s[i] && t[j] == s[j]);
            }
        }
        lemma_free_total_bound(t, capacity);
        if t.len() > 0 {
            assert(range_end(t.last()) < s.last().base) by {
                assert(t.last() == s[t.len() - 1]);
                let a = s[t.len() - 1];
                let b = s[s.len() - 1];
            }
        }
        assert(s.last() == s[s.len() - 1]);
    }
}

/// The free list after carving `vertex_count` vertices off the front of range `i`.
pub open spec fn carve(s: Seq<DeformationRange>, i: int, vertex_count: u32) -> Seq<DeformationRange> {
    if s[i].vertex_count == vertex_count {
        s.remove(i)
    } else {
        s.update(
            i,
            DeformationRange {
                base: (s[i].base + vertex_count) as u32,
                vertex_count: (s[i].vertex_count - vertex_count) as u32,
            },
        )
    }
}

proof fn lemma_carve_wf(s: Seq<DeformationRange>, capacity: u32, i: int, vertex_count: u32)
    requires
        free_list_wf(s, capacity),
        0 <= i < s.len(),
        0 < vertex_count <= s[i].vertex_count,
    ensures
        free_list_wf(carve(s, i, vertex_count), capacity),
        free_total(carve(s, i, vertex_count)) == free_total(s) - vertex_count,
{
    let t = carve(s, i, vertex_count);
    if s[i].vertex_count == vertex_count {
        lemma_free_total_remove(s, i);
        assert forall|x: int, y: int| #![trigger t[x], t[y]] 0 <= x < y < t.len() implies range_end(t[x]) < t[y].base by {
            let x2 = if x < i { x } else { x + 1 };
            let y2 = if y < i { y } else { y + 1 };
            assert(t[x] == s[x2] && t[y] == s[y2]);
            assert(range_end(s[x2]) < s[y2].base);
        }
        assert forall|x: int| 0 <= x < t.len() implies #[trigger] t[x].vertex_count > 0 && range_end(t[x]) <= capacity by {
            let x2 = if x < i { x } else { x + 1 };
            assert(t[x] == s[x2]);
        }
    } else {
        let rest = DeformationRange {
            base: (s[i].base + vertex_count) as u32,
            vertex_count: (s[i].vertex_count - vertex_count) as u32,
        };
        lemma_free_total_update(s, i, rest);
        assert forall|x: int, y: int| #![trigger t[x], t[y]] 0 <= x < y < t.len() implies range_end(t[x]) < t[y].base by {
            assert(range_end(s[x]) < s[y].base);
        }
        assert forall|x: int| 0 <= x < t.len() implies #[trigger] t[x].vertex_count > 0 && range_end(t[x]) <= capacity by {
            assert(s[x].vertex_count > 0);
        }
    }
}

proof fn lemma_carve_free_at(s: Seq<DeformationRange>, capacity: u32, i: int, vertex_count: u32, a: int)
    requires
        free_list_wf(s, capacity),
        0 <= i < s.len(),
        0 < vertex_count <= s[i].vertex_count,
    ensures
        is_free(carve(s, i, vertex_count), a) <==> (is_free(s, a) && !(s[i].base <= a < s[i].base + vertex_count)),
{
    let t = carve(s, i, vertex_count);
    let removed = s[i].vertex_count == vertex_count;
    if is_free(t, a) {
        let k = choose|k: int| 0 <= k < t.len() && #[trigger] t[k].base <= a < range_end(t[k]);
        let k2 = if removed && k >= i { k + 1 } else { k };
        assert(s[k2].base <= a < range_end(s[k2]));
        if k2 < i {
            assert(range_end(s[k2]) < s[i].base);
        } else if k2 > i {
            assert(range_end(s[i]) < s[k2].base);
        }
    }
    if is_free(s, a) && !(s[i].base <= a < s[i].base + vertex_count) {
        let k = choose|k: int| 0 <= k < s.len() && #[trigger] s[k].base <= a < range_end(s[k]);
        if removed {
            assert(k != i);
            let k2 = if k < i { k } else { k - 1 };
            assert(t[k2] == s[k]);
            assert(t[k2].base <= a < range_end(t[k2]));
        } else {
            assert(t[k].base <= a < range_end(t[k]));
        }
    }
}

/// The free list after returning `r` to it at sorted position `p`, merged
/// with the neighbour on either side that it touches.
pub open spec fn coalesce(s: Seq<DeformationRange>, p: int, r: DeformationRange) -> Seq<DeformationRange> {
    let merge_prev = p > 0 && range_end(s[p - 1]) == r.base;
    let merge_next = p < s.len() && range_end(r) == s[p].base;
    if merge_prev && merge_next {
        s.update(
            p - 1,
            DeformationRange {
                base: s[p - 1].base,
                vertex_count: (s[p - 1].vertex_count + r.vertex_count + s[p].vertex_count) as u32,
            },
        ).remove(p)
    } else if merge_prev {
        s.update(
            p - 1,
            DeformationRange { base: s[p - 1].base, vertex_count: (s[p - 1].vertex_count + r.vertex_count) as u32 },
        )
    } else if merge_next {
        s.update(p, DeformationRange { base: r.base, vertex_count: (r.vertex_count + s[p].vertex_count) as u32 })
    } else {
        s.insert(p, r)
    }
}

/// `r` fits in the gap before position `p` of the sorted free list `s`.
pub open spec fn gap_at(s: Seq<DeformationRange>, p: int, r: DeformationRange) -> bool {
    &&& 0 <= p <= s.len()
    &&& forall|k: int| 0 <= k < p ==> range_end(#[trigger] s[k]) <= r.base
    &&& forall|k: int| p <= k < s.len() ==> range_end(r) <= #[trigger] s[k].base
}

#[verifier::spinoff_prover]
#[verifier::rlimit(40)]
proof fn lemma_coalesce_both(s: Seq<DeformationRange>, capacity: u32, p: int, r: DeformationRange)
    requires
        free_list_wf(s, capacity),
        gap_at(s, p, r),
        r.vertex_count > 0,
        range_end(r) <= capacity,
        p > 0 && range_end(s[p - 1]) == r.base && p < s.len() && range_end(r) == s[p].base,
    ensures
        free_list_wf(coalesce(s, p, r), capacity),
        free_total(coalesce(s, p, r)) == free_total(s) + r.vertex_count,
        forall|a: int| is_free(coalesce(s, p, r), a) <==> (is_free(s, a) || r.base <= a < range_end(r)),
{
    let t = coalesce(s, p, r);
        let m = DeformationRange {
            base: s[p - 1].base,
            vertex_count: (s[p - 1].vertex_count + r.vertex_count + s[p].vertex_count) as u32,
        };
        let u = s.update(p - 1, m);
        lemma_free_total_update(s, p - 1, m);
        lemma_free_total_remove(u, p);
        assert forall|x: int, y: int| #![trigger t[x], t[y]] 0 <= x < y < t.len() implies range_end(t[x]) < t[y].base by {
            let x2 = if x < p { x } else { x + 1 };
            let y2 = if y < p { y } else { y + 1 };
            if x == p - 1 {
                assert(range_end(s[p]) < s[y2].base);
            } else if y == p - 1 {
                assert(range_end(s[x2]) < s[p - 1].base);
            } else {
                assert(range_end(s[x2]) < s[y2].base);
            }
        }
        assert forall|x: int| 0 <= x < t.len() implies #[trigger] t[x].vertex_count > 0 && range_end(t[x]) <= capacity by {
            let x2 = if x < p { x } else { x + 1 };
            if x != p - 1 {
                assert(t[x] == s[x2]);
            } else {
                assert(range_end(s[p]) <= capacity);
            }
        }
        assert forall|a: int| is_free(t, a) <==> (is_free(s, a) || r.base <= a < range_end(r)) by {
            if is_free(t, a) {
                let k = choose|k: int| 0 <= k < t.len() && #[trigger] t[k].base <= a < range_end(t[k]);
                if k == p - 1 {
                    if a < r.base {
                        assert(s[p - 1].base <= a < range_end(s[p - 1]));
                    } else if a >= range_end(r) {
                        assert(s[p].base <= a < range_end(s[p]));
                    }
                } else {
                    let k2 = if k < p { k } else { k + 1 };
                    assert(s[k2].base <= a < range_end(s[k2]));
                }
            }
            if is_free(s, a) {
                let k = choose|k: int| 0 <= k < s.len() && #[trigger] s[k].base <= a < range_end(s[k]);
                if k == p - 1 || k == p {
                    assert(t[p - 1].base <= a < range_end(t[p - 1]));
                } else {
                    let k2 = if k < p { k } else { k - 1 };
                    assert(t[k2] == s[k]);
                    assert(t[k2].base <= a < range_end(t[k2]));
                }
            } else if r.base <= a < range_end(r) {
                assert(t[p - 1].base <= a < range_end(t[p - 1]));
            }
        }
}

#[verifier::spinoff_prover]
proof fn lemma_coalesce_prev(s: Seq<DeformationRange>, capacity: u32, p: int, r: DeformationRange)
    requires
        free_list_wf(s, capacity),
        gap_at(s, p, r),
        r.vertex_count > 0,
        range_end(r) <= capacity,
        p > 0 && range_end(s[p - 1]) == r.base && !(p < s.len() && range_end(r) == s[p].base),
    ensures
        free_list_wf(coalesce(s, p, r), capacity),
        free_total(coalesce(s, p, r)) == free_total(s) + r.vertex_count,
        forall|a: int| is_free(coalesce(s, p, r), a) <==> (is_free(s, a) || r.base <= a < range_end(r)),
{
    let t = coalesce(s, p, r);
        let m = DeformationRange { base: s[p - 1].base, vertex_count: (s[p - 1].vertex_count + r.vertex_count) as u32 };
        lemma_free_total_update(s, p - 1, m);
        assert forall|x: int, y: int| #![trigger t[x], t[y]] 0 <= x < y < t.len() implies range_end(t[x]) < t[y].base by {
            if x == p - 1 {
                assert(range_end(r) <= s[y].base);
                assert(range_end(r) != s[p].base);
                if y > p {
                    assert(range_end(s[p]) < s[y].base);
                }
            } else if y == p - 1 {
                assert(range_end(s[x]) < s[p - 1].base);
            } else {
                assert(range_end(s[x]) < s[y].base);
            }
        }
        assert forall|x: int| 0 <= x < t.len() implies #[trigger] t[x].vertex_count > 0 && range_end(t[x]) <= capacity by {
            assert(s[x].vertex_count > 0);
        }
        assert forall|a: int| is_free(t, a) <==> (is_free(s, a) || r.base <= a < range_end(r)) by {
            if is_free(t, a) {
                let k = choose|k: int| 0 <= k < t.len() && #[trigger] t[k].base <= a < range_end(t[k]);
                if k == p - 1 {
                    if a < r.base {
                        assert(s[p - 1].base <= a < range_end(s[p - 1]));
                    }
                } else {
                    assert(s[k].base <= a < range_end(s[k]));
                }
            }
            if is_free(s, a) {
                let k = choose|k: int| 0 <= k < s.len() && #[trigger] s[k].base <= a < range_end(s[k]);
                assert(t[k].base <= a < range_end(t[k]));
            } else if r.base <= a < range_end(r) {
                assert(t[p - 1].base <= a < range_end(t[p - 1]));
            }
        }
}

#[verifier::spinoff_prover]
proof fn lemma_coalesce_next(s: Seq<DeformationRange>, capacity: u32, p: int, r: DeformationRange)
    requires
        free_list_wf(s, capacity),
        gap_at(s, p, r),
        r.vertex_count > 0,
        range_end(r) <= capacity,
        !(p > 0 && range_end(s[p - 1]) == r.base) && p < s.len() && range_end(r) == s[p].base,
    ensures
        free_list_wf(coalesce(s, p, r), capacity),
        free_total(coalesce(s, p, r)) == free_total(s) + r.vertex_count,
        forall|a: int| is_free(coalesce(s, p, r), a) <==> (is_free(s, a) || r.base <= a < range_end(r)),
{
    let t = coalesce(s, p, r);
        let m = DeformationRange { base: r.base, vertex_count: (r.vertex_count + s[p].vertex_count) as u32 };
        lemma_free_total_update(s, p, m);
        assert forall|x: int, y: int| #![trigger t[x], t[y]] 0 <= x < y < t.len() implies range_end(t[x]) < t[y].base by {
            if y == p {
                assert(range_end(s[x]) <= r.base);
                if x == p - 1 {
                    assert(range_end(s[p - 1]) != r.base);
                }
            } else if x == p {
                assert(range_end(s[p]) < s[y].base);
            } else {
                assert(range_end(s[x]) < s[y].base);
            }
        }
        assert forall|x: int| 0 <= x < t.len() implies #[trigger] t[x].vertex_count > 0 && range_end(t[x]) <= capacity by {
            assert(s[x].vertex_count > 0);
        }
        assert forall|a: int| is_free(t, a) <==> (is_free(s, a) || r.base <= a < range_end(r)) by {
            if is_free(t, a) {
                let k = choose|k: int| 0 <= k < t.len() && #[trigger] t[k].base <= a < range_end(t[k]);
                if k == p {
                    if a >= range_end(r) {
                        assert(s[p].base <= a < range_end(s[p]));
                    }
                } else {
                    assert(s[k].base <= a < range_end(s[k]));
                }
            }
            if is_free(s, a) {
                let k = choose|k: int| 0 <= k < s.len() && #[trigger] s[k].base <= a < range_end(s[k]);
                assert(t[k].base <= a < range_end(t[k]));
            } else if r.base <= a < range_end(r) {
                assert(t[p].base <= a < range_end(t[p]));
            }
        }
}

#[verifier::spinoff_prover]
proof fn lemma_coalesce_insert_free_at(s: Seq<DeformationRange>, capacity: u32, p: int, r: DeformationRange, a: int)
    requires
        free_list_wf(s, capacity),
        gap_at(s, p, r),
        r.vertex_count > 0,
        !(p > 0 && range_end(s[p - 1]) == r.base) && !(p < s.len() && range_end(r) == s[p].base),
    ensures
        is_free(coalesce(s, p, r), a) <==> (is_free(s, a) || r.base <= a < range_end(r)),
{
    let t = coalesce(s, p, r);
    if is_free(t, a) {
        let k = choose|k: int| 0 <= k < t.len() && #[trigger] t[k].base <= a < range_end(t[k]);
        if k != p {
            let k2 = if k < p { k } else { k - 1 };
            assert(t[k] == s[k2]);
            assert(s[k2].base <= a < range_end(s[k2]));
        }
    }
    if is_free(s, a) {
        let k = choose|k: int| 0 <= k < s.len() && #[trigger] s[k].base <= a < range_end(s[k]);
        let k2 = if k < p { k } else { k + 1 };
        assert(t[k2] == s[k]);
        assert(t[k2].base <= a < range_end(t[k2]));
    } else if r.base <= a < range_end(r) {
        assert(t[p] == r);
        assert(t[p].base <= a < range_end(t[p]));
    }
}

#[verifier::spinoff_prover]
proof fn lemma_coalesce_insert(s: Seq<DeformationRange>, capacity: u32, p: int, r: DeformationRange)
    requires
        free_list_wf(s, capacity),
        gap_at(s, p, r),
        r.vertex_count > 0,
        range_end(r) <= capacity,
        !(p > 0 && range_end(s[p - 1]) == r.base) && !(p < s.len() && range_end(r) == s[p].base),
    ensures
        free_list_wf(coalesce(s, p, r), capacity),
        free_total(coalesce(s, p, r)) == free_total(s) + r.vertex_count,
        forall|a: int| is_free(coalesce(s, p, r), a) <==> (is_free(s, a) || r.base <= a < range_end(r)),
{
    let t = coalesce(s, p, r);
        lemma_free_total_insert(s, p, r);
        assert forall|x: int, y: int| #![trigger t[x], t[y]] 0 <= x < y < t.len() implies range_end(t[x]) < t[y].base by {
            let x2 = if x < p { x } else { x - 1 };
            let y2 = if y < p { y } else { y - 1 };
            if x == p {
                assert(range_end(r) <= s[y2].base);
                if y2 == p {
                    assert(range_end(r) != s[p].base);
                } else {
                    assert(range_end(s[p]) < s[y2].base);
                }
            } else if y == p {
                assert(range_end(s[x2]) <= r.base);
                if x2 == p - 1 {
                    assert(range_end(s[p - 1]) != r.base);
                } else {
                    assert(range_end(s[x2]) < s[p - 1].base);
                }
            } else {
                assert(range_end(s[x2]) < s[y2].base);
            }
        }
        assert forall|x: int| 0 <= x < t.len() implies #[trigger] t[x].vertex_count > 0 && range_end(t[x]) <= capacity by {
            if x < p {
                assert(t[x] == s[x]);
            } else if x > p {
                assert(t[x] == s[x - 1]);
            }
        }
        assert forall|a: int| is_free(t, a) <==> (is_free(s, a) || r.base <= a < range_end(r)) by {
            lemma_coalesce_insert_free_at(s, capacity, p, r, a);
        }
}

proof fn lemma_coalesce(s: Seq<DeformationRange>, capacity: u32, p: int, r: DeformationRange)
    requires
        free_list_wf(s, capacity),
        gap_at(s, p, r),
        r.vertex_count > 0,
        range_end(r) <= capacity,
    ensures
        free_list_wf(coalesce(s, p, r), capacity),
        free_total(coalesce(s, p, r)) == free_total(s) + r.vertex_count,
        forall|a: int| is_free(coalesce(s, p, r), a) <==> (is_free(s, a) || r.base <= a < range_end(r)),
{
    let merge_prev = p > 0 && range_end(s[p - 1]) == r.base;
    let merge_next = p < s.len() && range_end(r) == s[p].base;
    if merge_prev && merge_next {
        lemma_coalesce_both(s, capacity, p, r);
    } else if merge_prev {
        lemma_coalesce_prev(s, capacity, p, r);
    } else if merge_next {
        lemma_coalesce_next(s, capacity, p, r);
    } else {
        lemma_coalesce_insert(s, capacity, p, r);
    }
}

/// Where `r` is disjoint from every free vertex, the sorted position of its
/// base leaves a gap that holds it.
proof fn lemma_gap(s: Seq<DeformationRange>, capacity: u32, p: int, r: DeformationRange)
    requires
        free_list_wf(s, capacity),
        r.vertex_count > 0,
        0 <= p <= s.len(),
        forall|a: int| r.base <= a < range_end(r) ==> !is_free(s, a),
        forall|k: int| 0 <= k < p ==> #[trigger] s[k].base < r.base,
        p < s.len() ==> s[p].base >= r.base,
    ensures
        gap_at(s, p, r),
{
    assert forall|k: int| 0 <= k < p implies range_end(#[trigger] s[k]) <= r.base by {
        if range_end(s[k]) > r.base {
            assert(s[k].base <= r.base < range_end(s[k]));
            assert(is_free(s, r.base as int));
        }
    }
    assert forall|k: int| p <= k < s.len() implies range_end(r) <= #[trigger] s[k].base by {
        if k > p {
            assert(range_end(s[p]) < s[k].base);
        }
        if s[k].base < range_end(r) {
            assert(s[k].base <= s[k].base < range_end(s[k]));
            assert(is_free(s, s[k].base as int));
        }
    }
}

/// The free list of an address space grown from `old_capacity` to
/// `new_capacity`: the new tail range, merged with a free range ending at the
/// old boundary.
pub open spec fn extend_free(s: Seq<DeformationRange>, old_capacity: u32, new_capacity: u32) -> Seq<DeformationRange> {
    if new_capacity == old_capacity {
        s
    } else {
        coalesce(
            s,
            s.len() as int,
            DeformationRange { base: old_capacity, vertex_count: (new_capacity - old_capacity) as u32 },
        )
    }
}

proof fn lemma_wf_widen(s: Seq<DeformationRange>, capacity: u32, wider: u32)
    requires
        free_list_wf(s, capacity),
        capacity <= wider,
    ensures
        free_list_wf(s, wider),
{
}

/// `t` is `s` after carving `vertex_count` vertices at `base` out of the first
/// free range that can hold them; exactly those vertices stop being free.
pub open spec fn first_fit_carved(s: Seq<DeformationRange>, t: Seq<DeformationRange>, base: u32, vertex_count: u32) -> bool {
    &&& exists|i: int| {
        &&& 0 <= i < s.len()
        &&& #[trigger] s[i].base == base
        &&& s[i].vertex_count >= vertex_count
        &&& (forall|j: int| 0 <= j < i ==> #[trigger] s[j].vertex_count < vertex_count)
        &&& t == carve(s, i, vertex_count)
    }
    &&& forall|a: int| is_free(t, a) <==> (is_free(s, a) && !(base <= a < base + vertex_count))
}


/// Every vertex of a well-formed allocator's address space is accounted
/// for exactly once: the live count and the free ranges add up to the
/// capacity, and the free ranges are sorted, non-empty, inside the address
/// space and never touch, so freed neighbours are always coalesced.
pub proof fn allocator_accounts_every_vertex(a: &DeformationRangeAllocator)
    requires
        a.wf(),
    ensures
        a.live() + free_total(a.free_list()) == a.cap(),
        free_list_wf(a.free_list(), a.cap()),
{
}

/// The free vertices of a canonical list fit between its first base and its
/// last end, with at least one vertex of gap between neighbours.
proof fn lemma_free_total_span(s: Seq<DeformationRange>, capacity: u32)
    requires
        free_list_wf(s, capacity),
        s.len() > 0,
    ensures
        free_total(s) <= range_end(s.last()) - s[0].base - (s.len() - 1),
    decreases s.len(),
{
    if s.len() > 1 {
        let t = s.drop_last();
        assert(free_list_wf(t, capacity)) by {
            assert forall|i: int, j: int| 0 <= i < j < t.len() implies range_end(#[trigger] t[i]) < #[trigger] t[j].base by {
                assert(t[i] == s[i] && t[j] == s[j]);
            }
        }
        lemma_free_total_span(t, capacity);
        assert(t.last() == s[s.len() - 2]);
        assert(t[0] == s[0]);
        assert(range_end(s[s.len() - 2]) < s[s.len() - 1].base);
        assert(free_total(s) == free_total(t) + s.last().vertex_count);
    } else {
        assert(s.drop_last().len() == 0);
        assert(free_total(s.drop_last()) == 0);
        assert(s.last() == s[0]);
    }
}

/// Once every live range has been freed, the free list is the whole
/// address space as one range (none when the address space is empty), so
/// an allocation of up to the capacity starts at base 0.
pub proof fn freeing_everything_leaves_one_range(a: &DeformationRangeAllocator)
    requires
        a.wf(),
        a.live() == 0,
    ensures
        a.cap() > 0 ==> a.free_list() == seq![DeformationRange { base: 0, vertex_count: a.cap() }],
        a.cap() == 0 ==> a.free_list().len() == 0,
{
    let s = a.free_list();
    assert(free_total(s) == a.cap());
    if s.len() > 0 {
        lemma_free_total_span(s, a.cap());
        assert(s[0].vertex_count > 0);
        assert(range_end(s[s.len() - 1]) <= a.cap());
        assert(s.len() == 1);
        assert(s[0].base == 0);
        assert(s.drop_last().len() == 0);
        assert(free_total(s) == s[0].vertex_count);
        assert(s =~= seq![DeformationRange { base: 0, vertex_count: a.cap() }]);
    } else if a.cap() > 0 {
        assert(free_total(s) == 0);
    }
}

/// A first-fit allocation hands out vertices that were free and are free
/// no longer.
pub proof fn allocation_takes_free_vertices(s: Seq<DeformationRange>, t: Seq<DeformationRange>, base: u32, vertex_count: u32)
    requires
        first_fit_carved(s, t, base, vertex_count),
    ensures
        forall|a: int| base <= a < base + vertex_count ==> is_free(s, a) && !is_free(t, a),
{
    let i = choose|i: int| {
        &&& 0 <= i < s.len()
        &&& #[trigger] s[i].base == base
        &&& s[i].vertex_count >= vertex_count
        &&& (forall|j: int| 0 <= j < i ==> #[trigger] s[j].vertex_count < vertex_count)
        &&& t == carve(s, i, vertex_count)
    };
    assert forall|a: int| base <= a < base + vertex_count implies is_free(s, a) && !is_free(t, a) by {
        assert(s[i].base <= a < range_end(s[i]));
    }
}

/// First fit never places a request beyond a free block that could hold
/// it: when `[lowest, lowest + vertex_count)` is entirely free, the
/// allocation starts at or before `lowest`. Freeing a range and asking for
/// the same size therefore reuses it or an earlier block.
pub proof fn first_fit_reuses_free_block(s: Seq<DeformationRange>, capacity: u32, t: Seq<DeformationRange>, base: u32, vertex_count: u32, lowest: int)
    requires
        free_list_wf(s, capacity),
        first_fit_carved(s, t, base, vertex_count),
        vertex_count > 0,
        forall|a: int| lowest <= a < lowest + vertex_count ==> is_free(s, a),
    ensures
        base <= lowest,
{
    let i = choose|i: int| {
        &&& 0 <= i < s.len()
        &&& #[trigger] s[i].base == base
        &&& s[i].vertex_count >= vertex_count
        &&& (forall|j: int| 0 <= j < i ==> #[trigger] s[j].vertex_count < vertex_count)
        &&& t == carve(s, i, vertex_count)
    };
    assert(is_free(s, lowest));
    let k = choose|k: int| 0 <= k < s.len() && #[trigger] s[k].base <= lowest < range_end(s[k]);
    let last = lowest + vertex_count - 1;
    assert(is_free(s, last));
    let k2 = choose|k2: int| 0 <= k2 < s.len() && #[trigger] s[k2].base <= last < range_end(s[k2]);
    if k2 != k {
        if k2 < k {
            assert(range_end(s[k2]) < s[k].base);
        } else {
            let gap = range_end(s[k]);
            assert(range_end(s[k]) < s[k2].base);
            assert(lowest <= gap < lowest + vertex_count);
            assert(is_free(s, gap));
            let m = choose|m: int| 0 <= m < s.len() && #[trigger] s[m].base <= gap < range_end(s[m]);
            if m < k {
                assert(range_end(s[m]) < s[k].base);
            } else if m > k {
                assert(range_end(s[k]) < s[m].base);
            }
        }
    }
    assert(s[k].vertex_count >= vertex_count);
    if i > k {
        assert(s[k].vertex_count < vertex_count);
    }
    if i < k {
        assert(range_end(s[i]) < s[k].base);
    }
}

/// Stable first-fit range allocator. Freed neighbours are always coalesced.
#[derive(Clone, Debug)]
pub struct DeformationRangeAllocator {
    capacity: u32,
    live_vertices: u32,
    free: Vec<DeformationRange>,
}

impl DeformationRangeAllocator {
    /// The address space size.
    pub closed spec fn cap(&self) -> u32 {
        self.capacity
    }

    /// Number of vertices currently handed out.
    pub closed spec fn live(&self) -> u32 {
        self.live_vertices
    }

    /// The free ranges, sorted by base.
    pub closed spec fn free_list(&self) -> Seq<DeformationRange> {
        self.free@
    }

    /// The allocator's invariant: a canonical free list, and every vertex of
    /// the address space is either free or live.
    pub closed spec fn wf(&self) -> bool {
        &&& free_list_wf(self.free@, self.capacity)
        &&& self.live_vertices + free_total(self.free@) == self.capacity
    }

    /// An allocator whose whole address space `[0, capacity)` is free.
    pub fn with_capacity(capacity: u32) -> (allocator: Self)
        ensures
            allocator.wf(),
            allocator.cap() == capacity,
            allocator.live() == 0,
            capacity == 0 ==> allocator.free_list() == Seq::<DeformationRange>::empty(),
            capacity != 0 ==> allocator.free_list() == seq![DeformationRange { base: 0, vertex_count: capacity }],
    {
        let mut free: Vec<DeformationRange> = Vec::new();
        if capacity != 0 {
            free.push(DeformationRange { base: 0, vertex_count: capacity });
        }
        let allocator = DeformationRangeAllocator { capacity, live_vertices: 0, free };
        proof {
            if capacity != 0 {
                lemma_free_total_push(Seq::empty(), DeformationRange { base: 0, vertex_count: capacity });
            }
        }
        allocator
    }

    pub fn capacity(&self) -> (c: u32)
        ensures
            c == self.cap(),
    {
        self.capacity
    }

    pub fn live_vertices(&self) -> (n: u32)
        ensures
            n == self.live(),
    {
        self.live_vertices
    }

    /// First-fit allocation. A zero-length request returns the empty range at 0.
    pub fn allocate(&mut self, vertex_count: u32) -> (r: Option<DeformationRange>)
        requires
            old(self).wf(),
        ensures
            final(self).wf(),
            final(self).cap() == old(self).cap(),
            vertex_count == 0 ==> r == Some(DeformationRange { base: 0, vertex_count: 0 })
                && final(self).free_list() == old(self).free_list() && final(self).live() == old(self).live(),
            vertex_count > 0 ==> (r is Some <==> fits(old(self).free_list(), vertex_count)),
            vertex_count > 0 && r is None ==> final(self).free_list() == old(self).free_list()
                && final(self).live() == old(self).live(),
            vertex_count > 0 && r is Some ==> {
                let rr = r.unwrap();
                let s = old(self).free_list();
                &&& rr.vertex_count == vertex_count
                &&& final(self).live() == old(self).live() + vertex_count
                &&& first_fit_carved(s, final(self).free_list(), rr.base, vertex_count)
            },
    {
        if vertex_count == 0 {
            return Some(DeformationRange { base: 0, vertex_count: 0 });
        }
        let ghost s = self.free@;
        let mut i: usize = 0;
        while i < self.free.len() && self.free[i].vertex_count < vertex_count
            invariant
                i <= self.free@.len(),
                self.free@ == s,
                forall|j: int| 0 <= j < i ==> #[trigger] s[j].vertex_count < vertex_count,
            decreases self.free@.len() - i,
        {
            i = i + 1;
        }
        if i == self.free.len() {
            return None;
        }
        let found = self.free[i];
        let base = found.base;
        let length = found.vertex_count;
        proof {
            lemma_carve_wf(s, self.capacity, i as int, vertex_count);
            assert forall|a: int| is_free(carve(s, i as int, vertex_count), a) <==> (is_free(s, a) && !(base <= a < base + vertex_count)) by {
                lemma_carve_free_at(s, self.capacity, i as int, vertex_count, a);
            }
        }
        if length > vertex_count {
            self.free.set(i, DeformationRange { base: base + vertex_count, vertex_count: length - vertex_count });
        } else {
            self.free.remove(i);
        }
        assert(self.free@ =~= carve(s, i as int, vertex_count));
        proof {
            lemma_free_total_bound(self.free@, self.capacity);
            assert(s[i as int].base == base);
            assert(first_fit_carved(s, self.free@, base, vertex_count));
        }
        self.live_vertices = self.live_vertices + vertex_count;
        Some(DeformationRange { base, vertex_count })
    }

    /// Returns `range` to the free list, merging it with touching free ranges.
    pub fn free(&mut self, range: DeformationRange)
        requires
            old(self).wf(),
            range.vertex_count > 0 ==> range_end(range) <= old(self).cap(),
            range.vertex_count > 0 ==> forall|a: int| range.base <= a < range_end(range) ==> !is_free(old(self).free_list(), a),
        ensures
            final(self).wf(),
            final(self).cap() == old(self).cap(),
            range.vertex_count == 0 ==> final(self).free_list() == old(self).free_list() && final(self).live() == old(self).live(),
            range.vertex_count > 0 ==> final(self).live() == old(self).live() - range.vertex_count,
            range.vertex_count > 0 ==> forall|a: int| is_free(final(self).free_list(), a) <==> (is_free(old(self).free_list(), a) || range.base <= a < range_end(range)),
    {
        if range.vertex_count == 0 {
            return;
        }
        let ghost s = self.free@;
        assert(s == old(self).free_list());
        assert(forall|a: int| range.base <= a < range_end(range) ==> !is_free(old(self).free_list(), a));
        assert(forall|a: int| range.base <= a < range_end(range) ==> !is_free(s, a));
        let mut p: usize = 0;
        while p < self.free.len() && self.free[p].base < range.base
            invariant
                p <= s.len(),
                self.free@ == s,
                forall|k: int| 0 <= k < p ==> #[trigger] s[k].base < range.base,
            decreases s.len() - p,
        {
            p = p + 1;
        }
        proof {
            lemma_gap(s, self.capacity, p as int, range);
            lemma_coalesce(s, self.capacity, p as int, range);
            lemma_free_total_bound(coalesce(s, p as int, range), self.capacity);
            lemma_free_total_bound(s, self.capacity);
        }
        let len = self.free.len();
        let merge_prev = p > 0 && self.free[p - 1].base as u64 + self.free[p - 1].vertex_count as u64 == range.base as u64;
        let merge_next = p < len && range.base as u64 + range.vertex_count as u64 == self.free[p].base as u64;
        if merge_prev && merge_next {
            let prev = self.free[p - 1];
            let next = self.free[p];
            self.free.set(p - 1, DeformationRange { base: prev.base, vertex_count: prev.vertex_count + range.vertex_count + next.vertex_count });
            self.free.remove(p);
        } else if merge_prev {
            let prev = self.free[p - 1];
            self.free.set(p - 1, DeformationRange { base: prev.base, vertex_count: prev.vertex_count + range.vertex_count });
        } else if merge_next {
            let next = self.free[p];
            self.free.set(p, DeformationRange { base: range.base, vertex_count: range.vertex_count + next.vertex_count });
        } else {
            self.free.insert(p, range);
        }
        assert(self.free@ =~= coalesce(s, p as int, range));
        self.live_vertices = self.live_vertices - range.vertex_count;
        assert(self.free_list() == self.free@);
        assert(old(self).free_list() == s);
        assert forall|a: int| is_free(self.free_list(), a) <==> (is_free(old(self).free_list(), a) || range.base <= a < range_end(range)) by {
            lemma_coalesce(s, self.capacity, p as int, range);
            assert(is_free(coalesce(s, p as int, range), a) <==> (is_free(s, a) || range.base <= a < range_end(range)));
        }
    }

    /// Extends the address space without moving any live range.
    pub fn grow(&mut self, new_capacity: u32)
        requires
            old(self).wf(),
            new_capacity >= old(self).cap(),
        ensures
            final(self).wf(),
            final(self).cap() == new_capacity,
            final(self).live() == old(self).live(),
            final(self).free_list() == extend_free(old(self).free_list(), old(self).cap(), new_capacity),
            forall|a: int| is_free(final(self).free_list(), a) <==> (is_free(old(self).free_list(), a) || old(self).cap() <= a < new_capacity),
    {
        let ghost s = self.free@;
        if new_capacity == self.capacity {
            proof {
                assert forall|a: int| is_free(s, a) <==> (is_free(s, a) || self.capacity <= a < new_capacity) by {}
            }
            return;
        }
        let extension = DeformationRange { base: self.capacity, vertex_count: new_capacity - self.capacity };
        proof {
            lemma_wf_widen(s, self.capacity, new_capacity);
            assert forall|k: int| 0 <= k < s.len() implies range_end(#[trigger] s[k]) <= extension.base by {}
            lemma_coalesce(s, new_capacity, s.len() as int, extension);
        }
        let len = self.free.len();
        if len > 0 && self.free[len - 1].base as u64 + self.free[len - 1].vertex_count as u64 == self.capacity as u64 {
            let prev = self.free[len - 1];
            self.free.set(len - 1, DeformationRange { base: prev.base, vertex_count: prev.vertex_count + extension.vertex_count });
        } else {
            self.free.push(extension);
        }
        assert(self.free@ =~= coalesce(s, s.len() as int, extension));
        self.capacity = new_capacity;
    }

    /// Allocates `vertex_count` vertices, first growing the address space to
    /// the next power of two that holds the current space plus the request
    /// when no free range is large enough. The flag reports whether it grew.
    pub fn allocate_growing(&mut self, vertex_count: u32) -> (res: (DeformationRange, bool))
        requires
            old(self).wf(),
            vertex_count == 0 || fits(old(self).free_list(), vertex_count)
                || old(self).cap() + vertex_count <= 0x8000_0000,
        ensures
            final(self).wf(),
            res.0.vertex_count == vertex_count,
            res.1 <==> (vertex_count > 0 && !fits(old(self).free_list(), vertex_count)),
            vertex_count == 0 ==> res.0.base == 0 && final(self).free_list() == old(self).free_list()
                && final(self).cap() == old(self).cap() && final(self).live() == old(self).live(),
            vertex_count > 0 ==> final(self).live() == old(self).live() + vertex_count,
            vertex_count > 0 && !res.1 ==> final(self).cap() == old(self).cap()
                && first_fit_carved(old(self).free_list(), final(self).free_list(), res.0.base, vertex_count),
            res.1 ==> final(self).cap() == next_pow2((old(self).cap() + vertex_count) as nat)
                && first_fit_carved(
                    extend_free(old(self).free_list(), old(self).cap(), final(self).cap()),
                    final(self).free_list(),
                    res.0.base,
                    vertex_count,
                ),
    {
        if let Some(range) = self.allocate(vertex_count) {
            return (range, false);
        }
        let ghost s = self.free@;
        let ghost old_cap = self.capacity;
        let required = self.capacity + vertex_count;
        let new_capacity = next_power_of_two(required);
        proof {
            lemma_pow2_at_least_bounds(required as nat, 1);
        }
        self.grow(new_capacity);
        proof {
            let t = self.free@;
            let ext = DeformationRange { base: old_cap, vertex_count: (new_capacity - old_cap) as u32 };
            assert(t == coalesce(s, s.len() as int, ext));
            // The grown tail range is the only one that can hold the request.
            assert(t.len() > 0);
            let last = t.len() - 1;
            if s.len() > 0 && range_end(s[s.len() - 1]) == old_cap {
                assert(t[last].vertex_count >= ext.vertex_count);
            } else {
                assert(t[last] == ext);
            }
            assert(t[last].vertex_count >= vertex_count);
            assert(fits(t, vertex_count));
        }
        let range = match self.allocate(vertex_count) {
            Some(range) => range,
            None => {
                proof {
                    assert(false);
                }
                DeformationRange { base: 0, vertex_count: 0 }
            },
        };
        (range, true)
    }
}

} // verus!
