use exedra_exact::completion::{
    completion_step, max_depth_center_fallback_allowed, transition_component_token, ComponentStatus,
    CompletionStep, LeafAnalysis, LeafMarker, SegmentEvidence,
};
use exedra_exact::grid::ComponentRoute;
use exedra_exact::refinement::{RefinementDecision, RefinementReason};
use exedra_exact::topology::{classify_cell, CornerSign};
use exedra_exact::grid::{CellKey, CornerKey};
use exedra_exact::locator::LeafLocator;

fn key(origin: [u32; 3], span: u32, depth: u8) -> CellKey {
    CellKey { origin: CornerKey::new(origin[0], origin[1], origin[2]), span, depth }
}

fn locator() -> LeafLocator {
    let leaves = [
        (0_u32, key([0, 0, 0], 2, 1)),
        (1_u32, key([2, 0, 0], 2, 1)),
        (2_u32, key([0, 2, 0], 2, 1)),
        (3_u32, key([2, 2, 0], 1, 2)),
    ];
    LeafLocator::new(&leaves, 4)
}

fn closed() -> SegmentEvidence {
    SegmentEvidence {
        crossing: true,
        incident: Ok(Some([0, 1, 3, 2])),
        tokens: [Some((0, 0)), Some((1, 0)), Some((3, 0)), Some((2, 0))],
    }
}

#[test]
fn closed_crossings_complete_the_step() {
    let quiet = SegmentEvidence { crossing: false, incident: Err(()), tokens: [None; 4] };
    let boundary = SegmentEvidence { crossing: true, incident: Ok(None), tokens: [None; 4] };
    assert_eq!(completion_step(&[closed(), quiet, boundary], &locator(), 2), CompletionStep::Complete);
}

#[test]
fn a_crossing_without_incident_leaves_is_invalid() {
    let missing = SegmentEvidence { crossing: true, incident: Err(()), tokens: [None; 4] };
    assert_eq!(completion_step(&[closed(), missing], &locator(), 2), CompletionStep::Invalid);
}

#[test]
fn leaves_without_tokens_are_refined_in_key_order() {
    let mut open = closed();
    open.tokens[1] = None;
    open.tokens[3] = None;
    assert_eq!(
        completion_step(&[open], &locator(), 2),
        CompletionStep::Refine(vec![(key([0, 2, 0], 2, 1), 2), (key([2, 0, 0], 2, 1), 1)])
    );
}

#[test]
fn tokens_that_do_not_close_refine_all_four_that_can_be() {
    let mut repeated = closed();
    repeated.tokens[2] = Some((0, 0));
    assert_eq!(
        completion_step(&[repeated], &locator(), 2),
        CompletionStep::Refine(vec![
            (key([0, 0, 0], 2, 1), 0),
            (key([0, 2, 0], 2, 1), 2),
            (key([2, 0, 0], 2, 1), 1),
        ])
    );
}

#[test]
fn a_flagged_leaf_at_max_depth_alone_is_invalid() {
    let mut open = closed();
    open.tokens[2] = None;
    assert_eq!(completion_step(&[open], &locator(), 2), CompletionStep::Invalid);
}

fn two_corner_topology() -> exedra_exact::topology::CellTopology {
    let mut signs = [CornerSign::Outside; 8];
    signs[0] = CornerSign::Inside;
    signs[7] = CornerSign::Inside;
    classify_cell(signs, [false; 6])
}

const USABLE: ComponentStatus = ComponentStatus { usable: true, constraintless: false };
const EMPTY: ComponentStatus = ComponentStatus { usable: false, constraintless: true };
const BROKEN: ComponentStatus = ComponentStatus { usable: false, constraintless: false };

fn analysis(components: Vec<ComponentStatus>, compatibility: ComponentStatus) -> LeafAnalysis {
    LeafAnalysis {
        topology: two_corner_topology(),
        components,
        compatibility,
        complete_hermite: true,
        has_hermite: true,
        samples_finite: true,
    }
}

#[test]
fn kept_leaves_offer_their_routed_component() {
    let marker = LeafMarker {
        decision: RefinementDecision::Retain,
        analysis: Some(analysis(vec![USABLE, BROKEN], BROKEN)),
    };
    assert_eq!(transition_component_token(9, Some(&marker), ComponentRoute::LocalEdge(3)), Some((9, 0)));
    assert_eq!(transition_component_token(9, Some(&marker), ComponentRoute::LocalEdge(10)), None);
    assert_eq!(transition_component_token(9, Some(&marker), ComponentRoute::LocalEdge(1)), None);
    assert_eq!(transition_component_token(9, Some(&marker), ComponentRoute::OnlyComponent), None);
    assert_eq!(transition_component_token(9, None, ComponentRoute::LocalEdge(3)), None);
    let refined = LeafMarker {
        decision: RefinementDecision::Refine(RefinementReason::Residual),
        analysis: Some(analysis(vec![USABLE, USABLE], USABLE)),
    };
    assert_eq!(transition_component_token(9, Some(&refined), ComponentRoute::LocalEdge(3)), None);
}

#[test]
fn compatibility_and_center_fallback_stand_in_with_255() {
    let single = LeafMarker {
        decision: RefinementDecision::RetainRedundantHermitePlanes,
        analysis: Some(analysis(vec![BROKEN], USABLE)),
    };
    assert_eq!(transition_component_token(4, Some(&single), ComponentRoute::OnlyComponent), Some((4, 255)));
    let none = LeafMarker {
        decision: RefinementDecision::Retain,
        analysis: Some(analysis(vec![], USABLE)),
    };
    assert_eq!(transition_component_token(4, Some(&none), ComponentRoute::OnlyComponent), Some((4, 255)));
    let finest = LeafMarker {
        decision: RefinementDecision::MaxDepthCompatibility,
        analysis: Some(analysis(vec![EMPTY, EMPTY], EMPTY)),
    };
    assert!(max_depth_center_fallback_allowed(finest.analysis.as_ref().unwrap()));
    assert_eq!(transition_component_token(4, Some(&finest), ComponentRoute::LocalEdge(6)), Some((4, 255)));
    let mixed = analysis(vec![EMPTY, USABLE], EMPTY);
    assert!(!max_depth_center_fallback_allowed(&mixed));
}
