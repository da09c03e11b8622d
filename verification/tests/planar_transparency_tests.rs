use mittens::ids::ComponentId;
use mittens::planar_transparency::{
    order_key, PlanarRect, PlanarTransparencyCandidate, PlanarTransparencyOptimizer, PlanarTransparencyResolution,
    PlanarTransparencyScopeId, PlanarTransparencyTransactionError,
};

fn ids(count: u64) -> Vec<ComponentId> {
    (0..count).map(|index| ComponentId { index }).collect()
}

fn scope(id: ComponentId) -> PlanarTransparencyScopeId {
    PlanarTransparencyScopeId(id)
}

fn rect(min_x: f32, min_y: f32, max_x: f32, max_y: f32) -> PlanarRect {
    PlanarRect {
        min_x_bits: min_x.to_bits(),
        min_y_bits: min_y.to_bits(),
        max_x_bits: max_x.to_bits(),
        max_y_bits: max_y.to_bits(),
    }
}

fn candidate(renderable: ComponentId, rect: PlanarRect, stable_order: u32) -> PlanarTransparencyCandidate {
    PlanarTransparencyCandidate {
        renderable,
        root_local_rect: rect,
        stacking_depth_bits: (stable_order as f32).to_bits(),
        stable_order,
    }
}

#[test]
fn staged_candidates_are_invisible_until_commit() {
    let v = ids(2);
    let (scope_id, renderable) = (v[0], v[1]);
    let scope = scope(scope_id);
    let mut optimizer = PlanarTransparencyOptimizer::new();
    let transaction = optimizer.begin_scope_update(scope);
    optimizer
        .add_candidate(transaction, candidate(renderable, rect(0.0, 0.0, 1.0, 1.0), 0))
        .unwrap();

    assert_eq!(optimizer.resolution_for(scope, renderable), None);
    optimizer.commit_scope_update(transaction).unwrap();
    assert_eq!(
        optimizer.resolution_for(scope, renderable).unwrap().resolution,
        PlanarTransparencyResolution::SingleLayer
    );
}

#[test]
fn newer_transaction_makes_the_old_one_stale() {
    let v = ids(3);
    let (scope_id, first, second) = (v[0], v[1], v[2]);
    let scope = scope(scope_id);
    let mut optimizer = PlanarTransparencyOptimizer::new();
    let old = optimizer.begin_scope_update(scope);
    let new = optimizer.begin_scope_update(scope);

    assert_eq!(
        optimizer.add_candidate(old, candidate(first, rect(0.0, 0.0, 1.0, 1.0), 0)),
        Err(PlanarTransparencyTransactionError::StaleTransaction)
    );
    optimizer
        .add_candidate(new, candidate(second, rect(0.0, 0.0, 1.0, 1.0), 0))
        .unwrap();
    optimizer.commit_scope_update(new).unwrap();
    assert_eq!(optimizer.resolution_for(scope, first), None);
    assert!(optimizer.resolution_for(scope, second).is_some());
}

#[test]
fn commit_replaces_scope_and_removes_omitted_candidates() {
    let v = ids(3);
    let (scope_id, first, second) = (v[0], v[1], v[2]);
    let scope = scope(scope_id);
    let mut optimizer = PlanarTransparencyOptimizer::new();
    let first_commit = optimizer.begin_scope_update(scope);
    optimizer
        .add_candidate(first_commit, candidate(first, rect(0.0, 0.0, 1.0, 1.0), 0))
        .unwrap();
    optimizer
        .add_candidate(first_commit, candidate(second, rect(2.0, 0.0, 3.0, 1.0), 1))
        .unwrap();
    optimizer.commit_scope_update(first_commit).unwrap();

    let replacement = optimizer.begin_scope_update(scope);
    optimizer
        .add_candidate(replacement, candidate(second, rect(2.0, 0.0, 3.0, 1.0), 1))
        .unwrap();
    optimizer.commit_scope_update(replacement).unwrap();

    assert_eq!(optimizer.committed_candidate_count(scope), 1);
    assert_eq!(optimizer.resolution_for(scope, first), None);
    assert!(optimizer.resolution_for(scope, second).is_some());
}

#[test]
fn overlap_and_edge_contact_resolve_as_specified() {
    let v = ids(5);
    let (scope_id, isolated, overlapping_a, overlapping_b, edge_touching) = (v[0], v[1], v[2], v[3], v[4]);
    let scope = scope(scope_id);
    let mut optimizer = PlanarTransparencyOptimizer::new();
    let transaction = optimizer.begin_scope_update(scope);
    optimizer
        .add_candidate(transaction, candidate(isolated, rect(4.0, 0.0, 5.0, 1.0), 0))
        .unwrap();
    optimizer
        .add_candidate(transaction, candidate(overlapping_a, rect(0.0, 0.0, 2.0, 2.0), 1))
        .unwrap();
    optimizer
        .add_candidate(transaction, candidate(overlapping_b, rect(1.0, 1.0, 3.0, 3.0), 2))
        .unwrap();
    optimizer
        .add_candidate(transaction, candidate(edge_touching, rect(3.0, 0.0, 4.0, 1.0), 3))
        .unwrap();
    optimizer.commit_scope_update(transaction).unwrap();

    assert_eq!(
        optimizer.resolution_for(scope, isolated).unwrap().resolution,
        PlanarTransparencyResolution::SingleLayer
    );
    assert_eq!(
        optimizer.resolution_for(scope, overlapping_a).unwrap().resolution,
        PlanarTransparencyResolution::MultiLayer
    );
    assert_eq!(
        optimizer.resolution_for(scope, overlapping_b).unwrap().resolution,
        PlanarTransparencyResolution::MultiLayer
    );
    assert_eq!(
        optimizer.resolution_for(scope, edge_touching).unwrap().resolution,
        PlanarTransparencyResolution::SingleLayer
    );
}

#[test]
fn invalid_commit_preserves_the_previous_active_snapshot() {
    let v = ids(3);
    let (scope_id, valid, invalid) = (v[0], v[1], v[2]);
    let scope = scope(scope_id);
    let mut optimizer = PlanarTransparencyOptimizer::new();
    let initial = optimizer.begin_scope_update(scope);
    optimizer
        .add_candidate(initial, candidate(valid, rect(0.0, 0.0, 1.0, 1.0), 0))
        .unwrap();
    optimizer.commit_scope_update(initial).unwrap();

    let invalid_transaction = optimizer.begin_scope_update(scope);
    optimizer
        .add_candidate(invalid_transaction, candidate(invalid, rect(2.0, 0.0, 1.0, 1.0), 1))
        .unwrap();
    assert_eq!(
        optimizer.commit_scope_update(invalid_transaction),
        Err(PlanarTransparencyTransactionError::InvalidCandidate { renderable: invalid })
    );
    assert!(optimizer.resolution_for(scope, valid).is_some());
    assert_eq!(optimizer.resolution_for(scope, invalid), None);
}

#[test]
fn duplicate_candidate_is_refused_and_keeps_the_snapshot() {
    let v = ids(2);
    let scope = scope(v[0]);
    let mut optimizer = PlanarTransparencyOptimizer::new();
    let tx = optimizer.begin_scope_update(scope);
    optimizer.add_candidate(tx, candidate(v[1], rect(0.0, 0.0, 1.0, 1.0), 0)).unwrap();
    assert_eq!(
        optimizer.add_candidate(tx, candidate(v[1], rect(5.0, 5.0, 6.0, 6.0), 1)),
        Err(PlanarTransparencyTransactionError::DuplicateCandidate { renderable: v[1] })
    );
    assert_eq!(optimizer.commit_scope_update(tx), Ok(1));
    assert_eq!(optimizer.committed_candidate_count(scope), 1);
}

#[test]
fn committed_transaction_is_stale_and_removed_scope_forgets_everything() {
    let v = ids(2);
    let scope = scope(v[0]);
    let mut optimizer = PlanarTransparencyOptimizer::default();
    let tx = optimizer.begin_scope_update(scope);
    optimizer.add_candidate(tx, candidate(v[1], rect(0.0, 0.0, 1.0, 1.0), 0)).unwrap();
    assert_eq!(optimizer.commit_scope_update(tx), Ok(1));
    assert_eq!(
        optimizer.commit_scope_update(tx),
        Err(PlanarTransparencyTransactionError::StaleTransaction)
    );
    optimizer.remove_scope(scope);
    assert_eq!(optimizer.committed_candidate_count(scope), 0);
    assert_eq!(optimizer.resolution_for(scope, v[1]), None);
}

#[test]
fn non_finite_depth_and_nan_coordinates_are_invalid() {
    let v = ids(3);
    let scope = scope(v[0]);
    let mut optimizer = PlanarTransparencyOptimizer::new();
    let tx = optimizer.begin_scope_update(scope);
    let mut deep = candidate(v[1], rect(0.0, 0.0, 1.0, 1.0), 0);
    deep.stacking_depth_bits = f32::INFINITY.to_bits();
    optimizer.add_candidate(tx, deep).unwrap();
    assert_eq!(
        optimizer.commit_scope_update(tx),
        Err(PlanarTransparencyTransactionError::InvalidCandidate { renderable: v[1] })
    );
    let tx2 = optimizer.begin_scope_update(scope);
    optimizer
        .add_candidate(tx2, candidate(v[2], rect(f32::NAN, 0.0, 1.0, 1.0), 0))
        .unwrap();
    assert_eq!(
        optimizer.commit_scope_update(tx2),
        Err(PlanarTransparencyTransactionError::InvalidCandidate { renderable: v[2] })
    );
}

#[test]
fn order_key_orders_negative_values_and_merges_zeros() {
    assert_eq!(order_key(0.0f32.to_bits()), order_key((-0.0f32).to_bits()));
    assert!(order_key((-2.0f32).to_bits()) < order_key((-1.0f32).to_bits()));
    assert!(order_key((-1.0f32).to_bits()) < order_key(0.5f32.to_bits()));
    assert!(order_key(0.5f32.to_bits()) < order_key(3.0f32.to_bits()));
    let touching = rect(-1.0, -1.0, 0.0, 0.0);
    let other = rect(-0.0, -0.0, 1.0, 1.0);
    assert!(!touching.overlaps_open_area(other));
    assert!(rect(-1.0, -1.0, 0.5, 0.5).overlaps_open_area(other));
}
