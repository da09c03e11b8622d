use mittens::deformation::{build_workgroups, DeformationRangeAllocator, GpuDeformationJob, GpuDeformationWorkgroup};

fn job(vertex_count: u32) -> GpuDeformationJob {
    GpuDeformationJob { vertex_count, ..Default::default() }
}

#[test]
fn workgroup_boundaries_and_multiple_jobs() {
    for (vertices, expected) in [(0, 0), (1, 1), (63, 1), (64, 1), (65, 2)] {
        let groups = build_workgroups(&[job(vertices)]);
        assert_eq!(groups.len(), expected);
    }
    let groups = build_workgroups(&[job(65), job(128)]);
    assert_eq!(
        groups,
        [
            GpuDeformationWorkgroup { job_index: 0, first_vertex: 0 },
            GpuDeformationWorkgroup { job_index: 0, first_vertex: 64 },
            GpuDeformationWorkgroup { job_index: 1, first_vertex: 0 },
            GpuDeformationWorkgroup { job_index: 1, first_vertex: 64 },
        ]
    );
}

#[test]
fn allocator_is_stable_coalescing_and_reuses_ranges() {
    let mut allocator = DeformationRangeAllocator::with_capacity(16);
    let a = allocator.allocate(4).unwrap();
    let b = allocator.allocate(6).unwrap();
    let c = allocator.allocate(6).unwrap();
    assert_eq!((a.base, b.base, c.base), (0, 4, 10));
    allocator.free(b);
    let reused = allocator.allocate(5).unwrap();
    assert_eq!(reused.base, 4);
    allocator.free(a);
    allocator.free(reused);
    allocator.free(c);
    assert_eq!(allocator.allocate(10).unwrap().base, 0);
    assert_eq!(allocator.live_vertices(), 10);
}

#[test]
fn allocator_grows_without_moving_live_ranges() {
    let mut allocator = DeformationRangeAllocator::with_capacity(4);
    let a = allocator.allocate(4).unwrap();
    let (b, grew) = allocator.allocate_growing(5);
    assert!(grew);
    assert_eq!(a.base, 0);
    assert_eq!(b.base, 4);
    assert_eq!(allocator.capacity(), 16);
}

#[test]
fn empty_job_list_has_no_workgroups() {
    assert!(build_workgroups(&[]).is_empty());
}

#[test]
fn allocation_fails_when_no_gap_is_large_enough() {
    let mut allocator = DeformationRangeAllocator::with_capacity(8);
    assert!(allocator.allocate(6).is_some());
    assert!(allocator.allocate(3).is_none());
    assert_eq!(allocator.live_vertices(), 6);
}

#[test]
fn zero_vertex_allocation_is_an_empty_range() {
    let mut allocator = DeformationRangeAllocator::with_capacity(8);
    let r = allocator.allocate(0).unwrap();
    assert_eq!(r.vertex_count, 0);
    assert_eq!(allocator.live_vertices(), 0);
}

#[test]
fn freeing_everything_restores_the_full_capacity() {
    let mut allocator = DeformationRangeAllocator::with_capacity(12);
    let a = allocator.allocate(5).unwrap();
    let b = allocator.allocate(7).unwrap();
    allocator.free(a);
    allocator.free(b);
    assert_eq!(allocator.live_vertices(), 0);
    assert_eq!(allocator.allocate(12).unwrap().base, 0);
}

#[test]
fn grow_keeps_existing_ranges_and_adds_free_space() {
    let mut allocator = DeformationRangeAllocator::with_capacity(4);
    let a = allocator.allocate(4).unwrap();
    allocator.grow(10);
    assert_eq!(allocator.capacity(), 10);
    let b = allocator.allocate(6).unwrap();
    assert_eq!((a.base, b.base), (0, 4));
}
