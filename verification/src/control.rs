//! Extraction policy, work evidence and per-run accounting.
//!
//! Hard limits bound extractor-controlled storage and work. A limit is
//! checked before the corresponding allocation, callback batch, pass or mesh
//! operation; exceeding one is an error carrying the work done so far.

use vstd::prelude::*;

verus! {

/// Hard limits on extractor-controlled storage and work. `None` leaves a
/// resource unrestricted.
#[derive(Copy, Clone, Debug, Eq, PartialEq, Structural)]
pub struct ExtractionLimits {
    /// Stored octree cells, including balancing and completion refinements.
    pub octree_cells: Option<usize>,
    /// Cached integer-grid corner samples.
    pub cached_corners: Option<usize>,
    /// Entries in any transition worklist (a per-list limit).
    pub transition_records: Option<usize>,
    /// Vertices in any generated mesh.
    pub vertices: Option<usize>,
    /// Faces in any generated mesh.
    pub faces: Option<usize>,
    /// Logical field evaluations through caller methods.
    pub field_evaluations: Option<usize>,
    /// Balancing and transition-completion passes.
    pub topology_passes: Option<usize>,
    /// Attempted checked vertex joins.
    pub vertex_joins: Option<usize>,
}

impl Default for ExtractionLimits {
    fn default() -> (r: Self)
        ensures
            r == (ExtractionLimits {
                octree_cells: None,
                cached_corners: None,
                transition_records: None,
                vertices: None,
                faces: None,
                field_evaluations: None,
                topology_passes: None,
                vertex_joins: None,
            }),
    {
        ExtractionLimits {
            octree_cells: None,
            cached_corners: None,
            transition_records: None,
            vertices: None,
            faces: None,
            field_evaluations: None,
            topology_passes: None,
            vertex_joins: None,
        }
    }
}

/// A resource whose limit stopped extraction.
#[derive(Copy, Clone, Debug, Eq, PartialEq, Structural)]
pub enum ExtractionResource {
    /// Stored octree cells.
    OctreeCells,
    /// Cached grid samples.
    CachedCorners,
    /// Entries in a transition worklist.
    TransitionRecords,
    /// Vertices in a generated mesh.
    Vertices,
    /// Faces in a generated mesh.
    Faces,
    /// Logical field evaluations through caller methods.
    FieldEvaluations,
    /// Balancing and completion passes.
    TopologyPasses,
    /// Checked join attempts.
    VertexJoins,
}

/// Work performed and peak logical storage before success or failure.
#[derive(Copy, Clone, Debug, Eq, PartialEq, Structural)]
pub struct ExtractionWork {
    /// Spatial interval requests.
    pub interval_queries: usize,
    /// Scalar point rows.
    pub point_evaluations: usize,
    /// Value/gradient rows.
    pub gradient_evaluations: usize,
    /// Point provenance or primitive-identity requests.
    pub provenance_queries: usize,
    /// Semi-analytic projection requests.
    pub projection_queries: usize,
    /// Balancing and completion passes begun.
    pub topology_passes: usize,
    /// Checked join attempts begun.
    pub vertex_joins: usize,
    /// Greatest number of stored octree cells.
    pub peak_octree_cells: usize,
    /// Greatest number of cached grid sample slots reserved.
    pub peak_cached_corners: usize,
    /// Greatest number of entries reserved for a transition worklist.
    pub peak_transition_records: usize,
    /// Greatest number of vertex slots reserved for any generated mesh.
    pub peak_vertices: usize,
    /// Greatest number of faces reserved for any generated mesh.
    pub peak_faces: usize,
}

/// The work record of a run that has done nothing yet.
pub open spec fn no_work() -> ExtractionWork {
    ExtractionWork {
        interval_queries: 0,
        point_evaluations: 0,
        gradient_evaluations: 0,
        provenance_queries: 0,
        projection_queries: 0,
        topology_passes: 0,
        vertex_joins: 0,
        peak_octree_cells: 0,
        peak_cached_corners: 0,
        peak_transition_records: 0,
        peak_vertices: 0,
        peak_faces: 0,
    }
}

impl Default for ExtractionWork {
    fn default() -> (r: Self)
        ensures
            r == no_work(),
    {
        ExtractionWork {
            interval_queries: 0,
            point_evaluations: 0,
            gradient_evaluations: 0,
            provenance_queries: 0,
            projection_queries: 0,
            topology_passes: 0,
            vertex_joins: 0,
            peak_octree_cells: 0,
            peak_cached_corners: 0,
            peak_transition_records: 0,
            peak_vertices: 0,
            peak_faces: 0,
        }
    }
}

impl ExtractionWork {
    /// Logical field evaluations so far: the sum of the five query counters.
    pub open spec fn evaluations(self) -> int {
        self.interval_queries + self.point_evaluations + self.gradient_evaluations
            + self.provenance_queries + self.projection_queries
    }

    /// The counter or peak that limits on `resource` are checked against;
    /// field evaluations are the sum of the query counters.
    pub open spec fn usage(self, resource: ExtractionResource) -> int {
        match resource {
            ExtractionResource::OctreeCells => self.peak_octree_cells as int,
            ExtractionResource::CachedCorners => self.peak_cached_corners as int,
            ExtractionResource::TransitionRecords => self.peak_transition_records as int,
            ExtractionResource::Vertices => self.peak_vertices as int,
            ExtractionResource::Faces => self.peak_faces as int,
            ExtractionResource::FieldEvaluations => self.evaluations(),
            ExtractionResource::TopologyPasses => self.topology_passes as int,
            ExtractionResource::VertexJoins => self.vertex_joins as int,
        }
    }

    /// Every counter of `self` is at most the same counter of `other`.
    pub open spec fn le(self, other: ExtractionWork) -> bool {
        &&& self.interval_queries <= other.interval_queries
        &&& self.point_evaluations <= other.point_evaluations
        &&& self.gradient_evaluations <= other.gradient_evaluations
        &&& self.provenance_queries <= other.provenance_queries
        &&& self.projection_queries <= other.projection_queries
        &&& self.topology_passes <= other.topology_passes
        &&& self.vertex_joins <= other.vertex_joins
        &&& self.peak_octree_cells <= other.peak_octree_cells
        &&& self.peak_cached_corners <= other.peak_cached_corners
        &&& self.peak_transition_records <= other.peak_transition_records
        &&& self.peak_vertices <= other.peak_vertices
        &&& self.peak_faces <= other.peak_faces
    }

    /// `self` with the peak tracked for `resource` raised to `requested`;
    /// field evaluations are counted elsewhere and left as they are.
    pub open spec fn with_peak(self, resource: ExtractionResource, requested: usize) -> ExtractionWork {
        match resource {
            ExtractionResource::OctreeCells => ExtractionWork {
                peak_octree_cells: vstd::math::max(self.peak_octree_cells as int, requested as int) as usize,
                ..self
            },
            ExtractionResource::CachedCorners => ExtractionWork {
                peak_cached_corners: vstd::math::max(self.peak_cached_corners as int, requested as int) as usize,
                ..self
            },
            ExtractionResource::TransitionRecords => ExtractionWork {
                peak_transition_records: vstd::math::max(
                    self.peak_transition_records as int,
                    requested as int,
                ) as usize,
                ..self
            },
            ExtractionResource::Vertices => ExtractionWork {
                peak_vertices: vstd::math::max(self.peak_vertices as int, requested as int) as usize,
                ..self
            },
            ExtractionResource::Faces => ExtractionWork {
                peak_faces: vstd::math::max(self.peak_faces as int, requested as int) as usize,
                ..self
            },
            ExtractionResource::TopologyPasses => ExtractionWork {
                topology_passes: vstd::math::max(self.topology_passes as int, requested as int) as usize,
                ..self
            },
            ExtractionResource::VertexJoins => ExtractionWork {
                vertex_joins: vstd::math::max(self.vertex_joins as int, requested as int) as usize,
                ..self
            },
            ExtractionResource::FieldEvaluations => self,
        }
    }
}

/// The kind of field query a batch of evaluations makes.
#[derive(Copy, Clone, Debug, Eq, PartialEq, Structural)]
pub enum Evaluation {
    /// Spatial interval requests.
    Interval,
    /// Scalar point rows.
    Point,
    /// Value/gradient rows.
    Gradient,
    /// Provenance requests.
    Provenance,
    /// Projection requests.
    Projection,
}

impl ExtractionWork {
    /// `self` with `count` more queries of `kind`.
    pub open spec fn with_queries(self, kind: Evaluation, count: usize) -> ExtractionWork {
        match kind {
            Evaluation::Interval => ExtractionWork {
                interval_queries: (self.interval_queries + count) as usize,
                ..self
            },
            Evaluation::Point => ExtractionWork {
                point_evaluations: (self.point_evaluations + count) as usize,
                ..self
            },
            Evaluation::Gradient => ExtractionWork {
                gradient_evaluations: (self.gradient_evaluations + count) as usize,
                ..self
            },
            Evaluation::Provenance => ExtractionWork {
                provenance_queries: (self.provenance_queries + count) as usize,
                ..self
            },
            Evaluation::Projection => ExtractionWork {
                projection_queries: (self.projection_queries + count) as usize,
                ..self
            },
        }
    }
}

/// Stage where extraction stopped or produced a witness.
#[derive(Copy, Clone, Debug, Eq, PartialEq, Structural)]
pub enum ExtractionStage {
    /// Input validation, before any field evaluation.
    Validation,
    /// Initial interval and error-driven subdivision.
    Subdivision,
    /// Balancing neighboring leaf depths.
    Balancing,
    /// Resolving component routes around primal edges.
    TransitionCompletion,
    /// Optional projection of component vertices.
    Projection,
    /// Gathering and emitting transition patches.
    Emission,
    /// Building mesh connectivity.
    MeshBuild,
    /// Joining coincident component representatives.
    Joining,
    /// Triangulating the joined polygon mesh.
    Triangulation,
    /// Authoring corner normals.
    Normals,
    /// Marking region seams.
    RegionSeams,
}

impl Default for ExtractionStage {
    fn default() -> (r: Self)
        ensures
            r == ExtractionStage::Validation,
    {
        ExtractionStage::Validation
    }
}

/// Whether output was intentionally omitted by the contributing-cell budget.
#[derive(Copy, Clone, Debug, Eq, PartialEq, Structural)]
pub enum ExtractionCompletion {
    /// Every eligible interior patch was included.
    Complete,
    /// One or more contributing cells were deliberately omitted.
    TruncatedByCellBudget,
}

impl Default for ExtractionCompletion {
    fn default() -> (r: Self)
        ensures
            r == ExtractionCompletion::Complete,
    {
        ExtractionCompletion::Complete
    }
}

/// A reason to inspect a reported cell.
#[derive(Copy, Clone, Debug, Eq, PartialEq, Structural)]
pub enum ExtractionCellIssue {
    /// The cell contributed geometry but the output budget omitted it.
    OmittedByCellBudget,
    /// Its interval allowed zero, but finest-grid corners had no crossing.
    NoCrossingAtMaxDepth,
    /// Corner signs crossed, but finest-cell searches yielded no usable
    /// Hermite samples.
    NoHermiteAtMaxDepth,
    /// The finest cell used compatibility evidence.
    MaxDepthCompatibility,
}

/// Extraction statistics for one dual-contouring run.
#[derive(Copy, Clone, Debug, Eq, PartialEq, Structural)]
pub struct DualContourStats {
    /// Total octree cells stored.
    pub octree_cells: usize,
    /// Intersecting octree leaves that contributed one or more vertices.
    pub active_cells: usize,
    /// Output component/compatibility-vertex count.
    pub vertices: usize,
    /// Output face count.
    pub faces: usize,
}

impl Default for DualContourStats {
    fn default() -> (r: Self)
        ensures
            r == (DualContourStats { octree_cells: 0, active_cells: 0, vertices: 0, faces: 0 }),
    {
        DualContourStats { octree_cells: 0, active_cells: 0, vertices: 0, faces: 0 }
    }
}

/// Semi-analytic projection and fallback counts for one extraction.
#[derive(Copy, Clone, Debug, Eq, PartialEq, Structural)]
pub struct SemiAnalyticContourStats {
    /// Contributing leaves projected onto one dominant primitive surface.
    pub surface_projections: usize,
    /// Contributing leaves snapped onto a supported primitive intersection.
    pub feature_snaps: usize,
    /// Contributing leaves whose primitive pair has no exact feature solver.
    pub unsupported_fallbacks: usize,
    /// Contributing leaves containing more than one surface component.
    pub ambiguous_fallbacks: usize,
    /// Contributing leaves containing a tangent primitive contact.
    pub tangent_fallbacks: usize,
    /// Contributing leaves containing coincident primitive surface patches.
    pub coincident_fallbacks: usize,
    /// Projections rejected for leaving the cell or exceeding its budget.
    pub over_budget_fallbacks: usize,
    /// Projections rejected for invalid parameters or non-finite output.
    pub invalid_fallbacks: usize,
}

impl Default for SemiAnalyticContourStats {
    fn default() -> (r: Self)
        ensures
            r == (SemiAnalyticContourStats {
                surface_projections: 0,
                feature_snaps: 0,
                unsupported_fallbacks: 0,
                ambiguous_fallbacks: 0,
                tangent_fallbacks: 0,
                coincident_fallbacks: 0,
                over_budget_fallbacks: 0,
                invalid_fallbacks: 0,
            }),
    {
        SemiAnalyticContourStats {
            surface_projections: 0,
            feature_snaps: 0,
            unsupported_fallbacks: 0,
            ambiguous_fallbacks: 0,
            tangent_fallbacks: 0,
            coincident_fallbacks: 0,
            over_budget_fallbacks: 0,
            invalid_fallbacks: 0,
        }
    }
}

/// Machine-readable extraction failure category.
#[derive(Copy, Clone, Debug, Eq, PartialEq, Structural)]
pub enum DualContourErrorKind {
    /// A join involved a disconnected vertex link.
    DisconnectedVertexLink {
        /// Index in the intermediate mesh.
        vertex: u32,
    },
    /// A hard resource limit would be exceeded.
    LimitExceeded {
        /// Resource being reserved.
        resource: ExtractionResource,
        /// Current count, or current worklist length for a storage reservation.
        used: usize,
        /// Requested total count after the operation.
        requested: usize,
        /// Effective limit; integer-capacity failures use the representable maximum.
        limit: usize,
    },
    /// A point or value/gradient callback returned a non-finite scalar value.
    NonFiniteScalar,
    /// An interval contained NaN or had its endpoints reversed.
    InvalidInterval,
}

/// Evidence preserved when extraction stops.
#[derive(Copy, Clone, Debug, Eq, PartialEq, Structural)]
pub struct ExtractionFailureContext {
    /// Stage at failure.
    pub stage: ExtractionStage,
    /// Accumulated work and peak storage, excluding a refused operation.
    pub work: ExtractionWork,
    /// Geometry progress before failure.
    pub stats: DualContourStats,
}

/// Extraction failure with a typed cause and work evidence.
#[derive(Clone, Debug, Eq, PartialEq)]
pub struct DualContourError {
    /// Machine-readable failure category.
    pub kind: DualContourErrorKind,
    /// Failure evidence, boxed to keep ordinary result values small.
    pub context: Box<ExtractionFailureContext>,
}

impl DualContourError {
    /// A failure of `kind` with empty evidence, at the validation stage.
    pub fn new(kind: DualContourErrorKind) -> (r: Self)
        ensures
            r.kind == kind,
            *r.context == (ExtractionFailureContext {
                stage: ExtractionStage::Validation,
                work: no_work(),
                stats: DualContourStats { octree_cells: 0, active_cells: 0, vertices: 0, faces: 0 },
            }),
    {
        DualContourError {
            kind,
            context: Box::new(
                ExtractionFailureContext {
                    stage: ExtractionStage::Validation,
                    work: ExtractionWork::default(),
                    stats: DualContourStats::default(),
                },
            ),
        }
    }

    /// A failure for a join that involved a disconnected vertex link.
    pub fn disconnected(vertex: u32) -> (r: Self)
        ensures
            r.kind == (DualContourErrorKind::DisconnectedVertexLink { vertex }),
            r.context.stage == ExtractionStage::Validation,
            r.context.work == no_work(),
    {
        Self::new(DualContourErrorKind::DisconnectedVertexLink { vertex })
    }
}

/// The effective limit on `resource`: the configured one, or the
/// representable maximum when unrestricted.
pub open spec fn limit_of(limits: ExtractionLimits, resource: ExtractionResource) -> usize {
    let configured = match resource {
        ExtractionResource::OctreeCells => limits.octree_cells,
        ExtractionResource::CachedCorners => limits.cached_corners,
        ExtractionResource::TransitionRecords => limits.transition_records,
        ExtractionResource::Vertices => limits.vertices,
        ExtractionResource::Faces => limits.faces,
        ExtractionResource::FieldEvaluations => limits.field_evaluations,
        ExtractionResource::TopologyPasses => limits.topology_passes,
        ExtractionResource::VertexJoins => limits.vertex_joins,
    };
    match configured {
        Some(limit) => limit,
        None => usize::MAX,
    }
}

/// No tracked counter exceeds its limit.
pub open spec fn within_limits(limits: ExtractionLimits, work: ExtractionWork) -> bool {
    &&& work.peak_octree_cells <= limit_of(limits, ExtractionResource::OctreeCells)
    &&& work.peak_cached_corners <= limit_of(limits, ExtractionResource::CachedCorners)
    &&& work.peak_transition_records <= limit_of(limits, ExtractionResource::TransitionRecords)
    &&& work.peak_vertices <= limit_of(limits, ExtractionResource::Vertices)
    &&& work.peak_faces <= limit_of(limits, ExtractionResource::Faces)
    &&& work.evaluations() <= limit_of(limits, ExtractionResource::FieldEvaluations)
    &&& work.topology_passes <= limit_of(limits, ExtractionResource::TopologyPasses)
    &&& work.vertex_joins <= limit_of(limits, ExtractionResource::VertexJoins)
}

/// Limits, progress and the first recorded failure of one extraction run.
pub struct RunContext {
    limits: ExtractionLimits,
    stage: ExtractionStage,
    work: ExtractionWork,
    stats: DualContourStats,
    failure: Option<DualContourError>,
}

impl RunContext {
    #[verifier::type_invariant]
    spec fn bounded(self) -> bool {
        within_limits(self.limits, self.work)
    }

    /// The run's limits.
    pub closed spec fn limits_spec(&self) -> ExtractionLimits {
        self.limits
    }

    /// The current stage.
    pub closed spec fn stage_spec(&self) -> ExtractionStage {
        self.stage
    }

    /// Work done so far.
    pub closed spec fn work_spec(&self) -> ExtractionWork {
        self.work
    }

    /// Geometry progress so far.
    pub closed spec fn stats_spec(&self) -> DualContourStats {
        self.stats
    }

    /// The first recorded failure, if any.
    pub closed spec fn failure_spec(&self) -> Option<DualContourError> {
        self.failure
    }

    /// `error` with this run's stage, work and statistics as evidence.
    pub open spec fn decorated(&self, error: DualContourError) -> DualContourError {
        DualContourError {
            kind: error.kind,
            context: Box::new(
                ExtractionFailureContext {
                    stage: self.stage_spec(),
                    work: self.work_spec(),
                    stats: self.stats_spec(),
                },
            ),
        }
    }

    /// The error refusing a reservation of `requested` units of `resource`.
    pub open spec fn refusal(
        &self,
        resource: ExtractionResource,
        used: usize,
        requested: usize,
        limit: usize,
    ) -> DualContourError {
        self.decorated(
            DualContourError {
                kind: DualContourErrorKind::LimitExceeded { resource, used, requested, limit },
                context: Box::new(
                    ExtractionFailureContext {
                        stage: ExtractionStage::Validation,
                        work: no_work(),
                        stats: DualContourStats {
                            octree_cells: 0,
                            active_cells: 0,
                            vertices: 0,
                            faces: 0,
                        },
                    },
                ),
            },
        )
    }

    /// Starts a run under `limits`.
    pub fn new(limits: ExtractionLimits) -> (r: Self)
        ensures
            r.limits_spec() == limits,
            r.stage_spec() == ExtractionStage::Validation,
            r.work_spec() == no_work(),
            r.stats_spec() == (DualContourStats {
                octree_cells: 0,
                active_cells: 0,
                vertices: 0,
                faces: 0,
            }),
            r.failure_spec() is None,
    {
        RunContext {
            limits,
            stage: ExtractionStage::Validation,
            work: ExtractionWork::default(),
            stats: DualContourStats::default(),
            failure: None,
        }
    }

    /// The run's limits.
    pub fn limits(&self) -> (r: ExtractionLimits)
        ensures
            r == self.limits_spec(),
    {
        self.limits
    }

    /// Work done so far. It never exceeds the limits.
    pub fn work(&self) -> (r: ExtractionWork)
        ensures
            r == self.work_spec(),
            within_limits(self.limits_spec(), r),
    {
        proof {
            use_type_invariant(self);
        }
        self.work
    }

    /// Geometry progress so far.
    pub fn stats(&self) -> (r: DualContourStats)
        ensures
            r == self.stats_spec(),
    {
        self.stats
    }

    /// The current stage.
    pub fn stage(&self) -> (r: ExtractionStage)
        ensures
            r == self.stage_spec(),
    {
        self.stage
    }

    /// Enters `stage`.
    pub fn set_stage(&mut self, stage: ExtractionStage)
        ensures
            final(self).stage_spec() == stage,
            final(self).limits_spec() == old(self).limits_spec(),
            final(self).work_spec() == old(self).work_spec(),
            final(self).stats_spec() == old(self).stats_spec(),
            final(self).failure_spec() == old(self).failure_spec(),
    {
        proof {
            use_type_invariant(&*self);
        }
        self.stage = stage;
    }

    /// Records geometry progress.
    pub fn set_stats(&mut self, stats: DualContourStats)
        ensures
            final(self).stats_spec() == stats,
            final(self).limits_spec() == old(self).limits_spec(),
            final(self).work_spec() == old(self).work_spec(),
            final(self).stage_spec() == old(self).stage_spec(),
            final(self).failure_spec() == old(self).failure_spec(),
    {
        proof {
            use_type_invariant(&*self);
        }
        self.stats = stats;
    }

    /// Fills `error`'s evidence with this run's stage, work and statistics.
    pub fn decorate(&self, error: DualContourError) -> (r: DualContourError)
        ensures
            r == self.decorated(error),
    {
        DualContourError {
            kind: error.kind,
            context: Box::new(
                ExtractionFailureContext { stage: self.stage, work: self.work, stats: self.stats },
            ),
        }
    }

    /// The recorded failure, if any, as an error.
    pub fn check(&self) -> (r: Result<(), DualContourError>)
        ensures
            match self.failure_spec() {
                Some(e) => r == Err::<(), DualContourError>(e),
                None => r is Ok,
            },
    {
        match &self.failure {
            Some(error) => Err(clone_error(error)),
            None => Ok(()),
        }
    }

    /// Records `error`, decorated, unless a failure is already recorded:
    /// the first failure is the one kept.
    pub fn fail(&mut self, error: DualContourError)
        ensures
            final(self).failure_spec() == (match old(self).failure_spec() {
                Some(e) => Some(e),
                None => Some(old(self).decorated(error)),
            }),
            final(self).limits_spec() == old(self).limits_spec(),
            final(self).work_spec() == old(self).work_spec(),
            final(self).stats_spec() == old(self).stats_spec(),
            final(self).stage_spec() == old(self).stage_spec(),
    {
        proof {
            use_type_invariant(&*self);
        }
        if self.failure.is_none() {
            let decorated = self.decorate(error);
            self.failure = Some(decorated);
        }
    }

    /// Reserves `requested` units of `resource` (currently `used`): fails
    /// with the recorded failure, or with a limit error when `requested`
    /// exceeds the limit; otherwise raises the tracked peak to `requested`.
    pub fn reserve(&mut self, resource: ExtractionResource, used: usize, requested: usize) -> (r:
        Result<(), DualContourError>)
        ensures
            final(self).limits_spec() == old(self).limits_spec(),
            final(self).stats_spec() == old(self).stats_spec(),
            final(self).stage_spec() == old(self).stage_spec(),
            final(self).failure_spec() == old(self).failure_spec(),
            match old(self).failure_spec() {
                Some(e) => r == Err::<(), DualContourError>(e) && final(self).work_spec() == old(
                    self,
                ).work_spec(),
                None => if requested > limit_of(old(self).limits_spec(), resource) {
                    r == Err::<(), DualContourError>(
                        old(self).refusal(
                            resource,
                            used,
                            requested,
                            limit_of(old(self).limits_spec(), resource),
                        ),
                    ) && final(self).work_spec() == old(self).work_spec()
                } else {
                    r is Ok && final(self).work_spec() == old(self).work_spec().with_peak(
                        resource,
                        requested,
                    )
                },
            },
    {
        proof {
            use_type_invariant(&*self);
        }
        self.check()?;
        let configured = match resource {
            ExtractionResource::OctreeCells => self.limits.octree_cells,
            ExtractionResource::CachedCorners => self.limits.cached_corners,
            ExtractionResource::TransitionRecords => self.limits.transition_records,
            ExtractionResource::Vertices => self.limits.vertices,
            ExtractionResource::Faces => self.limits.faces,
            ExtractionResource::FieldEvaluations => self.limits.field_evaluations,
            ExtractionResource::TopologyPasses => self.limits.topology_passes,
            ExtractionResource::VertexJoins => self.limits.vertex_joins,
        };
        let limit = match configured {
            Some(limit) => limit,
            None => usize::MAX,
        };
        if requested > limit {
            return Err(
                self.decorate(
                    DualContourError::new(
                        DualContourErrorKind::LimitExceeded { resource, used, requested, limit },
                    ),
                ),
            );
        }
        let mut work = self.work;
        match resource {
            ExtractionResource::OctreeCells => {
                work.peak_octree_cells = max_usize(work.peak_octree_cells, requested);
            },
            ExtractionResource::CachedCorners => {
                work.peak_cached_corners = max_usize(work.peak_cached_corners, requested);
            },
            ExtractionResource::TransitionRecords => {
                work.peak_transition_records = max_usize(work.peak_transition_records, requested);
            },
            ExtractionResource::Vertices => {
                work.peak_vertices = max_usize(work.peak_vertices, requested);
            },
            ExtractionResource::Faces => {
                work.peak_faces = max_usize(work.peak_faces, requested);
            },
            ExtractionResource::TopologyPasses => {
                work.topology_passes = max_usize(work.topology_passes, requested);
            },
            ExtractionResource::VertexJoins => {
                work.vertex_joins = max_usize(work.vertex_joins, requested);
            },
            ExtractionResource::FieldEvaluations => {
                return Ok(());
            },
        }
        self.work = work;
        Ok(())
    }

    /// Reserves `count` octree cells and records them as the tree's size.
    pub fn record_tree(&mut self, count: usize) -> (r: Result<(), DualContourError>)
        ensures
            final(self).limits_spec() == old(self).limits_spec(),
            final(self).stage_spec() == old(self).stage_spec(),
            final(self).failure_spec() == old(self).failure_spec(),
            match old(self).failure_spec() {
                Some(e) => r == Err::<(), DualContourError>(e) && final(self).work_spec() == old(
                    self,
                ).work_spec() && final(self).stats_spec() == old(self).stats_spec(),
                None => if count > limit_of(old(self).limits_spec(), ExtractionResource::OctreeCells) {
                    r == Err::<(), DualContourError>(
                        old(self).refusal(
                            ExtractionResource::OctreeCells,
                            0,
                            count,
                            limit_of(old(self).limits_spec(), ExtractionResource::OctreeCells),
                        ),
                    ) && final(self).work_spec() == old(self).work_spec() && final(self).stats_spec()
                        == old(self).stats_spec()
                } else {
                    r is Ok && final(self).work_spec() == old(self).work_spec().with_peak(
                        ExtractionResource::OctreeCells,
                        count,
                    ) && final(self).stats_spec() == (DualContourStats {
                        octree_cells: count,
                        ..old(self).stats_spec()
                    })
                },
            },
    {
        self.reserve(ExtractionResource::OctreeCells, 0, count)?;
        proof {
            use_type_invariant(&*self);
        }
        let mut stats = self.stats;
        stats.octree_cells = count;
        self.stats = stats;
        Ok(())
    }

    /// Reserves `additional` more units of `resource` beyond `used`, and
    /// returns the new total. A total beyond `usize::MAX` is a limit error
    /// at the representable maximum.
    pub fn grow(&mut self, resource: ExtractionResource, used: usize, additional: usize) -> (r:
        Result<usize, DualContourError>)
        ensures
            final(self).limits_spec() == old(self).limits_spec(),
            final(self).stats_spec() == old(self).stats_spec(),
            final(self).stage_spec() == old(self).stage_spec(),
            final(self).failure_spec() == old(self).failure_spec(),
            if used + additional > usize::MAX {
                r == Err::<usize, DualContourError>(
                    old(self).refusal(resource, used, usize::MAX, usize::MAX),
                ) && final(self).work_spec() == old(self).work_spec()
            } else {
                let requested = (used + additional) as usize;
                match old(self).failure_spec() {
                    Some(e) => r == Err::<usize, DualContourError>(e) && final(self).work_spec()
                        == old(self).work_spec(),
                    None => if requested > limit_of(old(self).limits_spec(), resource) {
                        r == Err::<usize, DualContourError>(
                            old(self).refusal(
                                resource,
                                used,
                                requested,
                                limit_of(old(self).limits_spec(), resource),
                            ),
                        ) && final(self).work_spec() == old(self).work_spec()
                    } else {
                        r == Ok::<usize, DualContourError>(requested) && final(self).work_spec()
                            == old(self).work_spec().with_peak(resource, requested)
                    },
                }
            },
    {
        let requested = match used.checked_add(additional) {
            Some(requested) => requested,
            None => {
                return Err(
                    self.decorate(
                        DualContourError::new(
                            DualContourErrorKind::LimitExceeded {
                                resource,
                                used,
                                requested: usize::MAX,
                                limit: usize::MAX,
                            },
                        ),
                    ),
                );
            },
        };
        self.reserve(resource, used, requested)?;
        Ok(requested)
    }

    /// Reserves a transition worklist of `count` records of `width` entries
    /// each, and returns its total length.
    pub fn records(&mut self, count: usize, width: usize) -> (r: Result<usize, DualContourError>)
        ensures
            final(self).limits_spec() == old(self).limits_spec(),
            final(self).stats_spec() == old(self).stats_spec(),
            final(self).stage_spec() == old(self).stage_spec(),
            final(self).failure_spec() == old(self).failure_spec(),
            if count * width > usize::MAX {
                r == Err::<usize, DualContourError>(
                    old(self).refusal(
                        ExtractionResource::TransitionRecords,
                        0,
                        usize::MAX,
                        usize::MAX,
                    ),
                ) && final(self).work_spec() == old(self).work_spec()
            } else {
                let requested = (count * width) as usize;
                match old(self).failure_spec() {
                    Some(e) => r == Err::<usize, DualContourError>(e) && final(self).work_spec()
                        == old(self).work_spec(),
                    None => if requested > limit_of(
                        old(self).limits_spec(),
                        ExtractionResource::TransitionRecords,
                    ) {
                        r == Err::<usize, DualContourError>(
                            old(self).refusal(
                                ExtractionResource::TransitionRecords,
                                0,
                                requested,
                                limit_of(old(self).limits_spec(), ExtractionResource::TransitionRecords),
                            ),
                        ) && final(self).work_spec() == old(self).work_spec()
                    } else {
                        r == Ok::<usize, DualContourError>(requested) && final(self).work_spec()
                            == old(self).work_spec().with_peak(
                            ExtractionResource::TransitionRecords,
                            requested,
                        )
                    },
                }
            },
    {
        let requested = match count.checked_mul(width) {
            Some(requested) => requested,
            None => {
                return Err(
                    self.decorate(
                        DualContourError::new(
                            DualContourErrorKind::LimitExceeded {
                                resource: ExtractionResource::TransitionRecords,
                                used: 0,
                                requested: usize::MAX,
                                limit: usize::MAX,
                            },
                        ),
                    ),
                );
            },
        };
        self.reserve(ExtractionResource::TransitionRecords, 0, requested)?;
        Ok(requested)
    }

    /// Counts a batch of `count` field queries of `kind` against the
    /// field-evaluation limit.
    pub fn evaluate(&mut self, kind: Evaluation, count: usize) -> (r: Result<(), DualContourError>)
        ensures
            final(self).limits_spec() == old(self).limits_spec(),
            final(self).stats_spec() == old(self).stats_spec(),
            final(self).stage_spec() == old(self).stage_spec(),
            final(self).failure_spec() == old(self).failure_spec(),
            ({
                let used = old(self).work_spec().evaluations();
                let limit = limit_of(old(self).limits_spec(), ExtractionResource::FieldEvaluations);
                if used + count > usize::MAX {
                    r == Err::<(), DualContourError>(
                        old(self).refusal(
                            ExtractionResource::FieldEvaluations,
                            used as usize,
                            usize::MAX,
                            limit,
                        ),
                    ) && final(self).work_spec() == old(self).work_spec()
                } else {
                    match old(self).failure_spec() {
                        Some(e) => r == Err::<(), DualContourError>(e) && final(self).work_spec()
                            == old(self).work_spec(),
                        None => if used + count > limit {
                            r == Err::<(), DualContourError>(
                                old(self).refusal(
                                    ExtractionResource::FieldEvaluations,
                                    used as usize,
                                    (used + count) as usize,
                                    limit,
                                ),
                            ) && final(self).work_spec() == old(self).work_spec()
                        } else {
                            r is Ok && final(self).work_spec() == old(self).work_spec().with_queries(
                                kind,
                                count,
                            )
                        },
                    }
                }
            }),
    {
        proof {
            use_type_invariant(&*self);
        }
        let work = self.work;
        let used = work.interval_queries + work.point_evaluations + work.gradient_evaluations
            + work.provenance_queries + work.projection_queries;
        let limit = match self.limits.field_evaluations {
            Some(limit) => limit,
            None => usize::MAX,
        };
        let requested = match used.checked_add(count) {
            Some(requested) => requested,
            None => {
                return Err(
                    self.decorate(
                        DualContourError::new(
                            DualContourErrorKind::LimitExceeded {
                                resource: ExtractionResource::FieldEvaluations,
                                used,
                                requested: usize::MAX,
                                limit,
                            },
                        ),
                    ),
                );
            },
        };
        self.reserve(ExtractionResource::FieldEvaluations, used, requested)?;
        let mut work = self.work;
        match kind {
            Evaluation::Interval => {
                work.interval_queries = work.interval_queries + count;
            },
            Evaluation::Point => {
                work.point_evaluations = work.point_evaluations + count;
            },
            Evaluation::Gradient => {
                work.gradient_evaluations = work.gradient_evaluations + count;
            },
            Evaluation::Provenance => {
                work.provenance_queries = work.provenance_queries + count;
            },
            Evaluation::Projection => {
                work.projection_queries = work.projection_queries + count;
            },
        }
        self.work = work;
        Ok(())
    }
}

/// The larger of two counts.
fn max_usize(a: usize, b: usize) -> (r: usize)
    ensures
        r == vstd::math::max(a as int, b as int),
{
    if a >= b {
        a
    } else {
        b
    }
}

/// A copy of `error`.
fn clone_error(error: &DualContourError) -> (r: DualContourError)
    ensures
        r == *error,
{
    DualContourError { kind: error.kind, context: Box::new(*error.context) }
}

/// Every run operation only ever raises the work counters: peaks and
/// counters are monotone over a run.
pub proof fn lemma_peaks_only_grow(work: ExtractionWork, resource: ExtractionResource, requested: usize)
    ensures
        work.le(work.with_peak(resource, requested)),
        work.with_peak(resource, requested).usage(resource) >= requested || resource
            == ExtractionResource::FieldEvaluations,
{
}

/// Counting queries only raises the counters.
pub proof fn lemma_queries_only_grow(work: ExtractionWork, kind: Evaluation, count: usize)
    requires
        work.evaluations() + count <= usize::MAX,
    ensures
        work.le(work.with_queries(kind, count)),
        work.with_queries(kind, count).evaluations() == work.evaluations() + count,
{
}

} // verus!
