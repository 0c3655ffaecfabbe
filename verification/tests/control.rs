use exedra_exact::control::{
    DualContourError, DualContourErrorKind, DualContourStats, Evaluation, ExtractionLimits,
    ExtractionResource, ExtractionStage, ExtractionWork, RunContext,
};

fn limits_with_faces(faces: usize) -> ExtractionLimits {
    ExtractionLimits { faces: Some(faces), ..ExtractionLimits::default() }
}

#[test]
fn default_limits_leave_every_resource_unrestricted() {
    let limits = ExtractionLimits::default();
    assert_eq!(limits.octree_cells, None);
    assert_eq!(limits.field_evaluations, None);
    let mut run = RunContext::new(limits);
    assert_eq!(run.work(), ExtractionWork::default());
    assert_eq!(run.stage(), ExtractionStage::Validation);
    assert_eq!(run.reserve(ExtractionResource::Vertices, 0, usize::MAX), Ok(()));
    assert_eq!(run.work().peak_vertices, usize::MAX);
}

#[test]
fn reservations_raise_peaks_but_never_lower_them() {
    let mut run = RunContext::new(limits_with_faces(10));
    assert_eq!(run.reserve(ExtractionResource::Faces, 0, 7), Ok(()));
    assert_eq!(run.reserve(ExtractionResource::Faces, 7, 3), Ok(()));
    assert_eq!(run.work().peak_faces, 7);
    assert_eq!(run.reserve(ExtractionResource::Faces, 3, 10), Ok(()));
    assert_eq!(run.work().peak_faces, 10);
}

#[test]
fn refused_reservation_reports_the_limit_and_keeps_the_evidence() {
    let mut run = RunContext::new(limits_with_faces(10));
    run.set_stage(ExtractionStage::Emission);
    assert_eq!(run.reserve(ExtractionResource::Faces, 0, 4), Ok(()));
    let error = run.reserve(ExtractionResource::Faces, 4, 11).unwrap_err();
    assert_eq!(
        error.kind,
        DualContourErrorKind::LimitExceeded {
            resource: ExtractionResource::Faces,
            used: 4,
            requested: 11,
            limit: 10,
        }
    );
    assert_eq!(error.context.stage, ExtractionStage::Emission);
    assert_eq!(error.context.work.peak_faces, 4);
    assert_eq!(run.work().peak_faces, 4, "the refused request is not recorded");
}

#[test]
fn the_first_failure_is_kept_and_returned_afterwards() {
    let mut run = RunContext::new(ExtractionLimits::default());
    assert_eq!(run.check(), Ok(()));
    run.fail(DualContourError::new(DualContourErrorKind::NonFiniteScalar));
    run.fail(DualContourError::new(DualContourErrorKind::InvalidInterval));
    let error = run.check().unwrap_err();
    assert_eq!(error.kind, DualContourErrorKind::NonFiniteScalar);
    let again = run.reserve(ExtractionResource::Vertices, 0, 1).unwrap_err();
    assert_eq!(again.kind, DualContourErrorKind::NonFiniteScalar);
}

#[test]
fn evaluations_count_against_one_shared_limit() {
    let limits = ExtractionLimits { field_evaluations: Some(5), ..ExtractionLimits::default() };
    let mut run = RunContext::new(limits);
    assert_eq!(run.evaluate(Evaluation::Point, 3), Ok(()));
    assert_eq!(run.evaluate(Evaluation::Interval, 2), Ok(()));
    assert_eq!(run.work().point_evaluations, 3);
    assert_eq!(run.work().interval_queries, 2);
    let error = run.evaluate(Evaluation::Gradient, 1).unwrap_err();
    assert_eq!(
        error.kind,
        DualContourErrorKind::LimitExceeded {
            resource: ExtractionResource::FieldEvaluations,
            used: 5,
            requested: 6,
            limit: 5,
        }
    );
    assert_eq!(run.work().gradient_evaluations, 0);
}

#[test]
fn growth_and_record_sizes_that_overflow_are_limit_errors() {
    let mut run = RunContext::new(ExtractionLimits::default());
    assert_eq!(run.grow(ExtractionResource::CachedCorners, 5, 6), Ok(11));
    let error = run.grow(ExtractionResource::CachedCorners, usize::MAX, 1).unwrap_err();
    assert_eq!(
        error.kind,
        DualContourErrorKind::LimitExceeded {
            resource: ExtractionResource::CachedCorners,
            used: usize::MAX,
            requested: usize::MAX,
            limit: usize::MAX,
        }
    );
    assert_eq!(run.records(3, 4), Ok(12));
    assert_eq!(run.work().peak_transition_records, 12);
    let error = run.records(usize::MAX, 2).unwrap_err();
    assert_eq!(
        error.kind,
        DualContourErrorKind::LimitExceeded {
            resource: ExtractionResource::TransitionRecords,
            used: 0,
            requested: usize::MAX,
            limit: usize::MAX,
        }
    );
}

#[test]
fn recording_the_tree_sets_the_cell_count() {
    let limits = ExtractionLimits { octree_cells: Some(8), ..ExtractionLimits::default() };
    let mut run = RunContext::new(limits);
    assert_eq!(run.record_tree(8), Ok(()));
    assert_eq!(run.stats().octree_cells, 8);
    assert!(run.record_tree(9).is_err());
    assert_eq!(run.stats().octree_cells, 8);
    run.set_stats(DualContourStats { octree_cells: 8, active_cells: 2, vertices: 3, faces: 1 });
    let decorated = run.decorate(DualContourError::disconnected(4));
    assert_eq!(decorated.kind, DualContourErrorKind::DisconnectedVertexLink { vertex: 4 });
    assert_eq!(decorated.context.stats.vertices, 3);
}
