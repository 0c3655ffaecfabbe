use exedra_exact::refinement::{
    accept_redundant_planes, decide_on_analysis, decide_on_corners, decide_on_interval,
    refinement_decision, InactiveReason, RefinementDecision, RefinementEvidence, RefinementMode,
    RefinementReason,
};

fn evidence(qef_rms: f32, curvature_error: f32, target: f32) -> RefinementEvidence {
    RefinementEvidence {
        expected_crossings: 4,
        hermite_hits: 4,
        complete_hermite: true,
        usable_constraints: 4,
        residual_over_target: qef_rms > target,
        curvature_over_target: curvature_error > target,
        was_clamped: false,
        finite: true,
        component_count: 1,
        ambiguous_face: false,
    }
}

#[test]
fn refinement_reason_precedence_is_explicit() {
    let target = 0.1;
    let good = evidence(0.01, 0.02, target);
    assert_eq!(refinement_decision(&good), RefinementDecision::Retain);

    let partial = RefinementEvidence {
        hermite_hits: 3,
        complete_hermite: false,
        finite: false,
        component_count: 2,
        was_clamped: true,
        ..evidence(1.0, 1.0, target)
    };
    assert_eq!(
        refinement_decision(&partial),
        RefinementDecision::Refine(RefinementReason::PartialHermite)
    );
    let partial_but_solvable = RefinementEvidence {
        hermite_hits: 3,
        complete_hermite: false,
        usable_constraints: 3,
        ..good
    };
    assert_eq!(
        refinement_decision(&partial_but_solvable),
        RefinementDecision::Refine(RefinementReason::PartialHermite),
        "a finite solvable subset must not stand in for a missing crossing edge"
    );
    let wrong_edge_set = RefinementEvidence { complete_hermite: false, ..good };
    assert_eq!(
        refinement_decision(&wrong_edge_set),
        RefinementDecision::Refine(RefinementReason::PartialHermite)
    );
    let non_finite = RefinementEvidence {
        finite: false,
        component_count: 2,
        was_clamped: true,
        ..evidence(1.0, 1.0, target)
    };
    assert_eq!(
        refinement_decision(&non_finite),
        RefinementDecision::Refine(RefinementReason::NonFinite)
    );
    let unsafe_topology = RefinementEvidence {
        component_count: 2,
        was_clamped: true,
        ..evidence(1.0, 1.0, target)
    };
    assert_eq!(
        refinement_decision(&unsafe_topology),
        RefinementDecision::Refine(RefinementReason::TopologyUnsafe)
    );
    let ambiguous_topology = RefinementEvidence { ambiguous_face: true, ..good };
    assert_eq!(
        refinement_decision(&ambiguous_topology),
        RefinementDecision::Refine(RefinementReason::TopologyUnsafe)
    );
    let clamped = RefinementEvidence { was_clamped: true, ..evidence(1.0, 1.0, target) };
    assert_eq!(
        refinement_decision(&clamped),
        RefinementDecision::Refine(RefinementReason::Clamped)
    );
    let residual = evidence(1.0, 1.0, target);
    assert_eq!(
        refinement_decision(&residual),
        RefinementDecision::Refine(RefinementReason::Residual)
    );
    let curvature = evidence(0.01, 1.0, target);
    assert_eq!(
        refinement_decision(&curvature),
        RefinementDecision::Refine(RefinementReason::Curvature)
    );
}

#[test]
fn unusable_constraints_refine_as_non_finite() {
    let short = RefinementEvidence { usable_constraints: 3, ..evidence(0.0, 0.0, 0.1) };
    assert_eq!(
        refinement_decision(&short),
        RefinementDecision::Refine(RefinementReason::NonFinite)
    );
}

#[test]
fn interval_and_corner_decisions_come_before_analysis() {
    let error_driven = RefinementMode::ErrorDriven;
    let legacy = RefinementMode::Legacy;
    assert_eq!(
        decide_on_interval(false, error_driven, false, 0),
        Some(RefinementDecision::Inactive(InactiveReason::IntervalExcluded))
    );
    assert_eq!(decide_on_interval(true, error_driven, false, 0), None);
    assert_eq!(
        decide_on_interval(true, legacy, false, 1),
        Some(RefinementDecision::Refine(RefinementReason::EmitterMinimumDepth))
    );
    assert_eq!(decide_on_interval(true, legacy, true, 1), None);

    assert_eq!(
        decide_on_corners(error_driven, true, 5, 0, true),
        Some(RefinementDecision::Inactive(InactiveReason::NoCrossingAtMaxDepth))
    );
    assert_eq!(
        decide_on_corners(legacy, false, 5, 0, true),
        Some(RefinementDecision::Inactive(InactiveReason::LegacyHomogeneous))
    );
    assert_eq!(
        decide_on_corners(error_driven, false, 5, 0, true),
        Some(RefinementDecision::Refine(RefinementReason::EnclosedNoEdge))
    );
    assert_eq!(
        decide_on_corners(error_driven, false, 5, 0, false),
        Some(RefinementDecision::Refine(RefinementReason::NonFinite))
    );
    assert_eq!(
        decide_on_corners(error_driven, false, 1, 4, true),
        Some(RefinementDecision::Refine(RefinementReason::EmitterMinimumDepth))
    );
    assert_eq!(
        decide_on_corners(legacy, false, 3, 4, true),
        Some(RefinementDecision::Refine(RefinementReason::LegacyCrossingCount))
    );
    assert_eq!(decide_on_corners(legacy, false, 3, 3, true), None);
    assert_eq!(decide_on_corners(error_driven, true, 0, 4, true), None);
}

#[test]
fn the_finest_depth_keeps_cells_with_samples() {
    let partial = RefinementEvidence { hermite_hits: 1, ..evidence(1.0, 1.0, 0.1) };
    assert_eq!(
        decide_on_analysis(RefinementMode::ErrorDriven, true, true, &partial),
        RefinementDecision::MaxDepthCompatibility
    );
    assert_eq!(
        decide_on_analysis(RefinementMode::ErrorDriven, true, false, &partial),
        RefinementDecision::Inactive(InactiveReason::NoCrossingAtMaxDepth)
    );
    assert_eq!(
        decide_on_analysis(RefinementMode::Legacy, false, true, &partial),
        RefinementDecision::Retain
    );
    let curved = evidence(0.01, 1.0, 0.1);
    let decision = decide_on_analysis(RefinementMode::ErrorDriven, false, true, &curved);
    assert_eq!(decision, RefinementDecision::Refine(RefinementReason::Curvature));
    assert_eq!(
        accept_redundant_planes(decision, true),
        RefinementDecision::RetainRedundantHermitePlanes
    );
    assert_eq!(accept_redundant_planes(decision, false), decision);
    assert_eq!(
        accept_redundant_planes(RefinementDecision::Refine(RefinementReason::Residual), true),
        RefinementDecision::Refine(RefinementReason::Residual)
    );
}
