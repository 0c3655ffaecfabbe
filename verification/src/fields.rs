//! Field combinator and extraction parameter records.
//!
//! These carry operands, provenance and parameters for the scalar fields
//! that an extraction samples; the field arithmetic itself is floating point
//! and lives with the fields.

use vstd::prelude::*;

verus! {

/// Fixed provenance wrapper for any scalar field.
#[derive(Copy, Clone, Debug, PartialEq)]
pub struct TaggedField<F, P> {
    /// Wrapped field.
    pub field: F,
    /// Constant provenance reported by the wrapper.
    pub provenance: P,
}

/// Which side of a binary combinator contributed the winning value.
#[derive(Copy, Clone, Debug, Eq, PartialEq, Structural)]
pub enum OperandSource {
    /// The left operand won.
    Left,
    /// The right operand won.
    Right,
}

/// Provenance payload returned by binary combinators.
#[derive(Copy, Clone, Debug, Eq, PartialEq)]
pub struct BinaryProvenance<P> {
    /// Winning side.
    pub source: OperandSource,
    /// Wrapped operand provenance.
    pub value: P,
    /// Whether both operands contributed in a smooth blend region.
    pub blended: bool,
}

/// Pointwise union of two scalar fields.
#[derive(Copy, Clone, Debug, PartialEq)]
pub struct Union<A, B> {
    /// Left operand.
    pub left: A,
    /// Right operand.
    pub right: B,
}

/// Pointwise intersection of two scalar fields.
#[derive(Copy, Clone, Debug, PartialEq)]
pub struct Intersection<A, B> {
    /// Left operand.
    pub left: A,
    /// Right operand.
    pub right: B,
}

/// Pointwise subtraction `left \ right`.
#[derive(Copy, Clone, Debug, PartialEq)]
pub struct Difference<A, B> {
    /// Left operand.
    pub left: A,
    /// Right operand.
    pub right: B,
}

impl<A, B> Union<A, B> {
    /// Creates a union combinator.
    pub fn new(left: A, right: B) -> (r: Self)
        ensures
            r.left == left,
            r.right == right,
    {
        Union { left, right }
    }
}

impl<A, B> Intersection<A, B> {
    /// Creates an intersection combinator.
    pub fn new(left: A, right: B) -> (r: Self)
        ensures
            r.left == left,
            r.right == right,
    {
        Intersection { left, right }
    }
}

impl<A, B> Difference<A, B> {
    /// Creates a subtraction combinator.
    pub fn new(left: A, right: B) -> (r: Self)
        ensures
            r.left == left,
            r.right == right,
    {
        Difference { left, right }
    }
}

/// Which operand's gradient a binary combinator reports at a point.
#[derive(Copy, Clone, Debug, Eq, PartialEq, Structural)]
pub enum Branch {
    /// The left operand's gradient.
    Left,
    /// The right operand's gradient.
    Right,
    /// The right operand's gradient, negated (subtraction).
    RightNegated,
}

/// The left operand's branch.
pub fn left_branch() -> (r: Branch)
    ensures
        r == Branch::Left,
{
    Branch::Left
}

/// The right operand's branch.
pub fn right_branch() -> (r: Branch)
    ensures
        r == Branch::Right,
{
    Branch::Right
}

/// The negated right operand's branch.
pub fn right_negated_branch() -> (r: Branch)
    ensures
        r == Branch::RightNegated,
{
    Branch::RightNegated
}

/// Revolution of a 2D radius-height profile around the world-space y axis.
#[derive(Copy, Clone, Debug, PartialEq)]
pub struct Revolve<F> {
    profile: F,
}

impl<F> Revolve<F> {
    /// The revolved profile.
    pub closed spec fn profile_spec(&self) -> F {
        self.profile
    }

    /// Creates a revolution field around the world-space y axis.
    pub fn new(profile: F) -> (r: Self)
        ensures
            r.profile_spec() == profile,
    {
        Revolve { profile }
    }

    /// Returns the source profile field.
    pub fn profile(&self) -> (r: &F)
        ensures
            *r == self.profile_spec(),
    {
        &self.profile
    }
}

/// Geometric classification of a semi-analytic projection.
#[derive(Copy, Clone, Debug, Eq, PartialEq, Structural)]
pub enum SemiAnalyticFeature {
    /// A smooth surface patch or planar face interior.
    Surface,
    /// A sharp intrinsic primitive edge.
    Edge,
    /// An intrinsic primitive corner.
    Corner,
    /// A transverse intersection between two primitive surfaces.
    IntersectionCurve,
}

/// Work counted by an n-ary smooth union.
#[derive(Copy, Clone, Debug, Eq, PartialEq, Structural)]
pub struct SmoothUnionStats {
    /// Points evaluated.
    pub points: u64,
    /// Child evaluations at those points.
    pub child_evaluations: u64,
    /// Children skipped at those points by distance culling.
    pub child_culls: u64,
    /// Interval queries.
    pub intervals: u64,
    /// Child interval queries made by those queries.
    pub child_intervals: u64,
    /// Children skipped in those queries by distance culling.
    pub child_interval_culls: u64,
}

impl Default for SmoothUnionStats {
    fn default() -> (r: Self)
        ensures
            r == (SmoothUnionStats {
                points: 0,
                child_evaluations: 0,
                child_culls: 0,
                intervals: 0,
                child_intervals: 0,
                child_interval_culls: 0,
            }),
    {
        SmoothUnionStats {
            points: 0,
            child_evaluations: 0,
            child_culls: 0,
            intervals: 0,
            child_intervals: 0,
            child_interval_culls: 0,
        }
    }
}

impl SmoothUnionStats {
    /// Counts `points` evaluated points of a union of `children` children,
    /// of which `culled` child evaluations were skipped.
    pub fn record_points(&mut self, points: u64, children: u64, culled: u64)
        requires
            points * children <= u64::MAX,
            culled <= points * children,
            old(self).points + points <= u64::MAX,
            old(self).child_evaluations + points * children - culled <= u64::MAX,
            old(self).child_culls + culled <= u64::MAX,
        ensures
            *final(self) == (SmoothUnionStats {
                points: (old(self).points + points) as u64,
                child_evaluations: (old(self).child_evaluations + points * children - culled) as u64,
                child_culls: (old(self).child_culls + culled) as u64,
                ..*old(self)
            }),
    {
        self.points = self.points + points;
        self.child_evaluations = self.child_evaluations + (points * children - culled);
        self.child_culls = self.child_culls + culled;
    }

    /// Counts one interval query that evaluated `evaluated` children and
    /// skipped `culled`.
    pub fn record_interval(&mut self, evaluated: u64, culled: u64)
        requires
            old(self).intervals + 1 <= u64::MAX,
            old(self).child_intervals + evaluated <= u64::MAX,
            old(self).child_interval_culls + culled <= u64::MAX,
        ensures
            *final(self) == (SmoothUnionStats {
                intervals: (old(self).intervals + 1) as u64,
                child_intervals: (old(self).child_intervals + evaluated) as u64,
                child_interval_culls: (old(self).child_interval_culls + culled) as u64,
                ..*old(self)
            }),
    {
        self.intervals = self.intervals + 1;
        self.child_intervals = self.child_intervals + evaluated;
        self.child_interval_culls = self.child_interval_culls + culled;
    }
}

/// Parameters controlling edge intersection search.
#[derive(Copy, Clone, Debug, Eq, PartialEq, Structural)]
pub struct EdgeSearchParams {
    /// Number of bisection refinement rounds.
    pub bisection_steps: u8,
}

impl Default for EdgeSearchParams {
    fn default() -> (r: Self)
        ensures
            r.bisection_steps == 8,
    {
        EdgeSearchParams { bisection_steps: 8 }
    }
}

/// Edge intersection search error.
#[derive(Copy, Clone, Debug, Eq, PartialEq, Structural)]
pub enum EdgeIntersectionError {
    /// Edge endpoints do not straddle the surface.
    NoSignChange,
}

/// One edge intersection of a sampled cell.
#[derive(Copy, Clone, Debug, PartialEq)]
pub struct CellHermiteIntersection<I> {
    /// Cube-edge index (`0..12` for a cube cell).
    pub edge_index: u8,
    /// Hermite intersection data for `edge_index`.
    pub intersection: I,
}

/// Hermite data collected for one sampled cell.
#[derive(Clone, Debug, PartialEq)]
pub struct CellHermiteData<I> {
    /// Sign-change intersections stored in deterministic edge order.
    pub intersections: Vec<CellHermiteIntersection<I>>,
    /// Corner sign mask where bit `i` means corner `i` is inside the surface.
    pub corner_signs: u8,
}

impl<I> CellHermiteData<I> {
    /// Creates an empty record for one corner sign mask.
    pub fn new(corner_signs: u8) -> (r: Self)
        ensures
            r.intersections@ == Seq::<CellHermiteIntersection<I>>::empty(),
            r.corner_signs == corner_signs,
    {
        CellHermiteData { intersections: Vec::new(), corner_signs }
    }

    /// Appends one intersection in caller order.
    pub fn push(&mut self, edge_index: u8, intersection: I)
        ensures
            final(self).intersections@ == old(self).intersections@.push(
                CellHermiteIntersection { edge_index, intersection },
            ),
            final(self).corner_signs == old(self).corner_signs,
    {
        self.intersections.push(CellHermiteIntersection { edge_index, intersection });
    }
}

} // verus!
