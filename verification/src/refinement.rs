//! The error-driven refinement decision for one analyzed cell.
//!
//! The reasons to refine are checked in a fixed order of precedence:
//! missing Hermite samples, non-finite or unusable constraints, unsafe
//! topology, a clamped vertex, then the residual and curvature errors
//! against the error target.
use vstd::prelude::*;

verus! {

/// The evidence one analyzed cell offers for its refinement decision. The
/// error comparisons against the target are taken where the errors are
/// measured.
#[derive(Copy, Clone, Debug, Eq, PartialEq, Structural)]
pub struct RefinementEvidence {
    /// Sign-changing edges of the cell.
    pub expected_crossings: usize,
    /// Hermite samples found on them.
    pub hermite_hits: usize,
    /// The samples lie exactly on the crossing edges.
    pub complete_hermite: bool,
    /// Constraints usable by the vertex solve.
    pub usable_constraints: u32,
    /// The fit residual exceeds the error target.
    pub residual_over_target: bool,
    /// The curvature error exceeds the error target.
    pub curvature_over_target: bool,
    /// The solved vertex was clamped into the cell.
    pub was_clamped: bool,
    /// Every sample and the solution are finite.
    pub finite: bool,
    /// Surface components in the cell.
    pub component_count: usize,
    /// Some face of the cell is a checkerboard face.
    pub ambiguous_face: bool,
}

/// Why a cell does not take part in extraction.
#[derive(Copy, Clone, Debug, Eq, PartialEq, Structural)]
pub enum InactiveReason {
    /// Its interval excludes the surface.
    IntervalExcluded,
    /// At the finest depth, its corners show no crossing.
    NoCrossingAtMaxDepth,
    /// Every corner has the same sign under the crossing-count rule.
    LegacyHomogeneous,
}

/// Why a cell is refined.
#[derive(Copy, Clone, Debug, Eq, PartialEq, Structural)]
pub enum RefinementReason {
    /// It lies above the minimum depth of the surface emitter.
    EmitterMinimumDepth,
    /// Its interval encloses the surface but no edge crosses.
    EnclosedNoEdge,
    /// Hermite samples are missing or off the crossing edges.
    PartialHermite,
    /// Samples are not finite or constraints are unusable.
    NonFinite,
    /// More than one component, or a checkerboard face.
    TopologyUnsafe,
    /// The solved vertex was clamped.
    Clamped,
    /// The fit residual is above the target.
    Residual,
    /// The curvature error is above the target.
    Curvature,
    /// The crossing-count rule asks for refinement.
    LegacyCrossingCount,
}

/// The decision for one cell.
#[derive(Copy, Clone, Debug, Eq, PartialEq, Structural)]
pub enum RefinementDecision {
    /// The cell does not take part.
    Inactive(InactiveReason),
    /// The cell is split.
    Refine(RefinementReason),
    /// The cell is kept.
    Retain,
    /// The cell is kept on the strength of redundant Hermite planes.
    RetainRedundantHermitePlanes,
    /// The finest cell is kept with compatibility evidence.
    MaxDepthCompatibility,
}

/// The first reason, in order of precedence, to refine a cell with
/// evidence `e`, or `Retain`.
pub open spec fn decided(e: RefinementEvidence) -> RefinementDecision {
    if e.hermite_hits != e.expected_crossings || !e.complete_hermite {
        RefinementDecision::Refine(RefinementReason::PartialHermite)
    } else if !e.finite || e.usable_constraints != e.hermite_hits {
        RefinementDecision::Refine(RefinementReason::NonFinite)
    } else if e.component_count != 1 || e.ambiguous_face {
        RefinementDecision::Refine(RefinementReason::TopologyUnsafe)
    } else if e.was_clamped {
        RefinementDecision::Refine(RefinementReason::Clamped)
    } else if e.residual_over_target {
        RefinementDecision::Refine(RefinementReason::Residual)
    } else if e.curvature_over_target {
        RefinementDecision::Refine(RefinementReason::Curvature)
    } else {
        RefinementDecision::Retain
    }
}

/// The refinement decision for a cell with evidence `evidence`.
pub fn refinement_decision(evidence: &RefinementEvidence) -> (r: RefinementDecision)
    requires
        evidence.hermite_hits == evidence.expected_crossings && evidence.complete_hermite
            ==> evidence.hermite_hits <= u32::MAX,
    ensures
        r == decided(*evidence),
{
    if evidence.hermite_hits != evidence.expected_crossings || !evidence.complete_hermite {
        return RefinementDecision::Refine(RefinementReason::PartialHermite);
    }
    if !evidence.finite || evidence.usable_constraints != evidence.hermite_hits as u32 {
        return RefinementDecision::Refine(RefinementReason::NonFinite);
    }
    if evidence.component_count != 1 || evidence.ambiguous_face {
        return RefinementDecision::Refine(RefinementReason::TopologyUnsafe);
    }
    if evidence.was_clamped {
        return RefinementDecision::Refine(RefinementReason::Clamped);
    }
    if evidence.residual_over_target {
        return RefinementDecision::Refine(RefinementReason::Residual);
    }
    if evidence.curvature_over_target {
        return RefinementDecision::Refine(RefinementReason::Curvature);
    }
    RefinementDecision::Retain
}

/// Cells shallower than this depth are refined before any output.
pub const MIN_EMITTER_DEPTH: u8 = 2;

/// The crossing-count rule keeps cells with at most this many crossings.
pub const LEGACY_SIMPLE_CELL_MAX_CROSSINGS: usize = 3;

/// How cells are refined.
#[derive(Copy, Clone, Debug, Eq, PartialEq, Structural)]
pub enum RefinementMode {
    /// By measured fitting and curvature errors.
    ErrorDriven,
    /// By counting crossing edges.
    Legacy,
}

/// The decision from a cell's interval, before its corners are sampled;
/// `None` means the corners must be sampled next.
pub open spec fn interval_decision(
    intersects: bool,
    mode: RefinementMode,
    at_max_depth: bool,
    depth: u8,
) -> Option<RefinementDecision> {
    if !intersects {
        Some(RefinementDecision::Inactive(InactiveReason::IntervalExcluded))
    } else if mode == RefinementMode::Legacy && !at_max_depth && depth < MIN_EMITTER_DEPTH {
        Some(RefinementDecision::Refine(RefinementReason::EmitterMinimumDepth))
    } else {
        None
    }
}

/// The decision from a cell's sampled corners, before its crossings are
/// analyzed; `None` means the crossings must be analyzed next.
pub open spec fn corner_decision(
    mode: RefinementMode,
    at_max_depth: bool,
    depth: u8,
    expected_crossings: usize,
    corners_finite: bool,
) -> Option<RefinementDecision> {
    if expected_crossings == 0 {
        Some(
            if at_max_depth {
                RefinementDecision::Inactive(InactiveReason::NoCrossingAtMaxDepth)
            } else if mode == RefinementMode::Legacy {
                RefinementDecision::Inactive(InactiveReason::LegacyHomogeneous)
            } else if corners_finite {
                RefinementDecision::Refine(RefinementReason::EnclosedNoEdge)
            } else {
                RefinementDecision::Refine(RefinementReason::NonFinite)
            },
        )
    } else if !at_max_depth && mode == RefinementMode::ErrorDriven && depth < MIN_EMITTER_DEPTH {
        Some(RefinementDecision::Refine(RefinementReason::EmitterMinimumDepth))
    } else if mode == RefinementMode::Legacy && !at_max_depth && expected_crossings
        > LEGACY_SIMPLE_CELL_MAX_CROSSINGS {
        Some(RefinementDecision::Refine(RefinementReason::LegacyCrossingCount))
    } else {
        None
    }
}

/// The decision from a cell's analyzed crossings.
pub open spec fn analysis_decision(
    mode: RefinementMode,
    at_max_depth: bool,
    has_hermite: bool,
    evidence: RefinementEvidence,
) -> RefinementDecision {
    if at_max_depth {
        if has_hermite {
            RefinementDecision::MaxDepthCompatibility
        } else {
            RefinementDecision::Inactive(InactiveReason::NoCrossingAtMaxDepth)
        }
    } else if mode == RefinementMode::Legacy {
        RefinementDecision::Retain
    } else {
        decided(evidence)
    }
}

/// Decides a cell from its interval test: inactive when the interval
/// excludes the surface, refined when the crossing-count rule wants a
/// deeper cell; `None` when its corners must be sampled.
pub fn decide_on_interval(intersects: bool, mode: RefinementMode, at_max_depth: bool, depth: u8) -> (r:
    Option<RefinementDecision>)
    ensures
        r == interval_decision(intersects, mode, at_max_depth, depth),
{
    if !intersects {
        return Some(RefinementDecision::Inactive(InactiveReason::IntervalExcluded));
    }
    if matches!(mode, RefinementMode::Legacy) && !at_max_depth && depth < MIN_EMITTER_DEPTH {
        return Some(RefinementDecision::Refine(RefinementReason::EmitterMinimumDepth));
    }
    None
}

/// Decides a cell from its sampled corners: `expected_crossings` crossing
/// edges, and whether every corner sample is finite; `None` when its
/// crossings must be analyzed.
pub fn decide_on_corners(
    mode: RefinementMode,
    at_max_depth: bool,
    depth: u8,
    expected_crossings: usize,
    corners_finite: bool,
) -> (r: Option<RefinementDecision>)
    ensures
        r == corner_decision(mode, at_max_depth, depth, expected_crossings, corners_finite),
{
    let legacy = matches!(mode, RefinementMode::Legacy);
    if expected_crossings == 0 {
        let decision = if at_max_depth {
            RefinementDecision::Inactive(InactiveReason::NoCrossingAtMaxDepth)
        } else if legacy {
            RefinementDecision::Inactive(InactiveReason::LegacyHomogeneous)
        } else if corners_finite {
            RefinementDecision::Refine(RefinementReason::EnclosedNoEdge)
        } else {
            RefinementDecision::Refine(RefinementReason::NonFinite)
        };
        return Some(decision);
    }
    if !at_max_depth && !legacy && depth < MIN_EMITTER_DEPTH {
        return Some(RefinementDecision::Refine(RefinementReason::EmitterMinimumDepth));
    }
    if legacy && !at_max_depth && expected_crossings > LEGACY_SIMPLE_CELL_MAX_CROSSINGS {
        return Some(RefinementDecision::Refine(RefinementReason::LegacyCrossingCount));
    }
    None
}

/// Decides a cell from its analysis: at the finest depth it is kept with
/// compatibility evidence when it has Hermite samples; otherwise the
/// crossing-count rule keeps it and the error-driven rule applies
/// [`refinement_decision`].
pub fn decide_on_analysis(
    mode: RefinementMode,
    at_max_depth: bool,
    has_hermite: bool,
    evidence: &RefinementEvidence,
) -> (r: RefinementDecision)
    requires
        evidence.hermite_hits == evidence.expected_crossings && evidence.complete_hermite
            ==> evidence.hermite_hits <= u32::MAX,
    ensures
        r == analysis_decision(mode, at_max_depth, has_hermite, *evidence),
{
    if at_max_depth {
        if has_hermite {
            RefinementDecision::MaxDepthCompatibility
        } else {
            RefinementDecision::Inactive(InactiveReason::NoCrossingAtMaxDepth)
        }
    } else if matches!(mode, RefinementMode::Legacy) {
        RefinementDecision::Retain
    } else {
        refinement_decision(evidence)
    }
}

/// A cell refined only for its curvature is kept instead when redundant
/// Hermite planes show it to be planar.
pub fn accept_redundant_planes(decision: RefinementDecision, planes_satisfied: bool) -> (r:
    RefinementDecision)
    ensures
        r == (if decision == RefinementDecision::Refine(RefinementReason::Curvature)
            && planes_satisfied {
            RefinementDecision::RetainRedundantHermitePlanes
        } else {
            decision
        }),
{
    match decision {
        RefinementDecision::Refine(RefinementReason::Curvature) => {
            if planes_satisfied {
                RefinementDecision::RetainRedundantHermitePlanes
            } else {
                decision
            }
        },
        _ => decision,
    }
}

/// What the corner stage decides, mode by mode: a cell with crossings is
/// refined for its depth only in error-driven mode below the emitter
/// minimum, and for its crossing count only in legacy mode above the simple
/// cell limit; every other cell with crossings goes on to analysis. A cell
/// without crossings is always decided here.
pub proof fn lemma_corner_decision_by_mode(
    mode: RefinementMode,
    at_max_depth: bool,
    depth: u8,
    expected_crossings: usize,
    corners_finite: bool,
)
    ensures
        ({
            let r = corner_decision(mode, at_max_depth, depth, expected_crossings, corners_finite);
            &&& (r == Some(RefinementDecision::Refine(RefinementReason::LegacyCrossingCount)) <==> (
            mode == RefinementMode::Legacy && !at_max_depth && expected_crossings
                > LEGACY_SIMPLE_CELL_MAX_CROSSINGS))
            &&& (r == Some(RefinementDecision::Refine(RefinementReason::EmitterMinimumDepth)) <==> (
            mode == RefinementMode::ErrorDriven && !at_max_depth && expected_crossings > 0 && depth
                < MIN_EMITTER_DEPTH))
            &&& (mode == RefinementMode::ErrorDriven && expected_crossings > 0 && (at_max_depth
                || depth >= MIN_EMITTER_DEPTH) ==> r is None)
            &&& (mode == RefinementMode::Legacy && expected_crossings > 0 && (at_max_depth
                || expected_crossings <= LEGACY_SIMPLE_CELL_MAX_CROSSINGS) ==> r is None)
            &&& (expected_crossings == 0 ==> r is Some)
        }),
{
}

} // verus!
