//! Integer-grid keys for adaptive dual-contour transitions.
//!
//! Cells of an adaptive octree live on an integer grid of `resolution`
//! finest steps per axis: a cell is an origin corner and a dyadic span.
//! Faces, edge lines and minimal edge segments get exact integer keys, so
//! neighbouring cells of different depths agree on shared geometry.

use vstd::prelude::*;

use vstd::arithmetic::power2::{lemma_pow2_pos, pow2};

use crate::sorted::{insert_sorted, key_lt, strictly_sorted, SortKey};
use vstd::bits::{low_bits_mask, lemma_u32_low_bits_mask_is_mod};

use crate::topology::edge_corners;

verus! {

/// A corner of the integer grid.
#[derive(Copy, Clone, Debug, Eq, Hash, Ord, PartialEq, PartialOrd, Structural)]
pub struct CornerKey {
    /// X coordinate in finest steps.
    pub x: u32,
    /// Y coordinate in finest steps.
    pub y: u32,
    /// Z coordinate in finest steps.
    pub z: u32,
}

/// Coordinate `axis` of a corner (`0` x, `1` y, anything else z).
pub open spec fn coord(k: CornerKey, axis: int) -> int {
    if axis == 0 {
        k.x as int
    } else if axis == 1 {
        k.y as int
    } else {
        k.z as int
    }
}

/// The two axes other than `axis`, in increasing order.
pub open spec fn other_axes(axis: int) -> (int, int) {
    if axis == 0 {
        (1, 2)
    } else if axis == 1 {
        (0, 2)
    } else {
        (0, 1)
    }
}

impl CornerKey {
    /// Creates a corner key.
    pub fn new(x: u32, y: u32, z: u32) -> (r: Self)
        ensures
            r == (CornerKey { x, y, z }),
    {
        CornerKey { x, y, z }
    }

    /// The coordinates as a tuple.
    pub fn as_tuple(self) -> (r: (u32, u32, u32))
        ensures
            r == (self.x, self.y, self.z),
    {
        (self.x, self.y, self.z)
    }
}

/// A cell of the integer grid: its minimum corner, width and octree depth.
#[derive(Copy, Clone, Debug, Eq, Hash, Ord, PartialEq, PartialOrd, Structural)]
pub struct CellKey {
    /// Minimum corner.
    pub origin: CornerKey,
    /// Width in finest steps.
    pub span: u32,
    /// Octree depth.
    pub depth: u8,
}

impl CellKey {
    /// The far corner of the cell is representable.
    pub open spec fn fits(self) -> bool {
        &&& self.origin.x + self.span <= u32::MAX
        &&& self.origin.y + self.span <= u32::MAX
        &&& self.origin.z + self.span <= u32::MAX
    }
}

/// One side of an exact face patch of a cell.
#[derive(Copy, Clone, Debug, Eq, Hash, PartialEq, Structural)]
pub struct FacePatchKey {
    /// Axis normal to the face.
    pub axis: u8,
    /// Coordinate of the face plane along `axis`.
    pub plane: u32,
    /// Lower first in-plane coordinate.
    pub u: u32,
    /// Lower second in-plane coordinate.
    pub v: u32,
    /// Width of the patch.
    pub span: u32,
}

/// A grid line parallel to `axis`, fixed in the two other coordinates.
#[derive(Copy, Clone, Debug, Eq, Hash, Ord, PartialEq, PartialOrd, Structural)]
pub struct EdgeLineKey {
    /// Direction of the line.
    pub axis: u8,
    /// First other coordinate.
    pub fixed_u: u32,
    /// Second other coordinate.
    pub fixed_v: u32,
}

/// A cell edge as an interval on its grid line.
#[derive(Copy, Clone, Debug, Eq, PartialEq, Structural)]
pub struct EdgeInterval {
    /// The grid line.
    pub line: EdgeLineKey,
    /// Start coordinate along the line.
    pub start: u32,
    /// End coordinate along the line.
    pub end: u32,
}

/// A minimal primal edge segment: a start corner, an axis and a length.
#[derive(Copy, Clone, Debug, Eq, Hash, PartialEq, Structural)]
pub struct EdgeSegmentKey {
    /// Direction of the segment.
    pub axis: u8,
    /// Minimum corner.
    pub start: CornerKey,
    /// Length in finest steps.
    pub length: u32,
}

/// How a cell finds the component on an edge segment.
#[derive(Copy, Clone, Debug, Eq, PartialEq, Structural)]
pub enum ComponentRoute {
    /// The segment lies on this local cube edge of the cell.
    LocalEdge(u8),
    /// The segment crosses a face or the interior: the cell's only component.
    OnlyComponent,
}

/// The corner reached from `start` by `length` steps along `axis`.
pub open spec fn moved(start: CornerKey, axis: int, length: int) -> CornerKey {
    if axis == 0 {
        CornerKey { x: (start.x + length) as u32, ..start }
    } else if axis == 1 {
        CornerKey { y: (start.y + length) as u32, ..start }
    } else {
        CornerKey { z: (start.z + length) as u32, ..start }
    }
}

/// The far end of a segment.
pub fn segment_end(segment: EdgeSegmentKey) -> (r: CornerKey)
    requires
        coord(segment.start, segment.axis as int) + segment.length <= u32::MAX,
    ensures
        r == moved(segment.start, segment.axis as int, segment.length as int),
{
    match segment.axis {
        0 => CornerKey::new(segment.start.x + segment.length, segment.start.y, segment.start.z),
        1 => CornerKey::new(segment.start.x, segment.start.y + segment.length, segment.start.z),
        _ => CornerKey::new(segment.start.x, segment.start.y, segment.start.z + segment.length),
    }
}

/// The face patch on side `side` (`0` low, `1` high) of `cell` normal to
/// `axis`, and which side of the patch the cell owns (`1` for its low face,
/// `0` for its high face).
pub fn face_patch(cell: CellKey, axis: u8, side: u8) -> (r: (FacePatchKey, usize))
    requires
        side < 2,
        cell.fits(),
    ensures
        r.0.axis == axis,
        r.0.plane == coord(cell.origin, axis as int) + side * cell.span,
        r.0.u == coord(cell.origin, other_axes(axis as int).0),
        r.0.v == coord(cell.origin, other_axes(axis as int).1),
        r.0.span == cell.span,
        r.1 == 1 - side,
{
    let origin = cell.origin;
    let offset: u32 = if side == 1 {
        cell.span
    } else {
        0
    };
    let (plane, u, v) = match axis {
        0 => (origin.x + offset, origin.y, origin.z),
        1 => (origin.y + offset, origin.x, origin.z),
        _ => (origin.z + offset, origin.x, origin.y),
    };
    (FacePatchKey { axis, plane, u, v, span: cell.span }, (1 - side) as usize)
}

/// The edge of `cell` along `axis` at the low or high end of each of the two
/// other axes, as an interval on its grid line.
pub fn edge_interval(cell: CellKey, axis: u8, first_high: bool, second_high: bool) -> (r:
    EdgeInterval)
    requires
        cell.fits(),
    ensures
        r.line.axis == axis,
        r.line.fixed_u == coord(cell.origin, other_axes(axis as int).0) + (if first_high {
            cell.span as int
        } else {
            0
        }),
        r.line.fixed_v == coord(cell.origin, other_axes(axis as int).1) + (if second_high {
            cell.span as int
        } else {
            0
        }),
        r.start == coord(cell.origin, axis as int),
        r.end == coord(cell.origin, axis as int) + cell.span,
{
    let offset_first: u32 = if first_high {
        cell.span
    } else {
        0
    };
    let offset_second: u32 = if second_high {
        cell.span
    } else {
        0
    };
    match axis {
        0 => EdgeInterval {
            line: EdgeLineKey {
                axis,
                fixed_u: cell.origin.y + offset_first,
                fixed_v: cell.origin.z + offset_second,
            },
            start: cell.origin.x,
            end: cell.origin.x + cell.span,
        },
        1 => EdgeInterval {
            line: EdgeLineKey {
                axis,
                fixed_u: cell.origin.x + offset_first,
                fixed_v: cell.origin.z + offset_second,
            },
            start: cell.origin.y,
            end: cell.origin.y + cell.span,
        },
        _ => EdgeInterval {
            line: EdgeLineKey {
                axis,
                fixed_u: cell.origin.x + offset_first,
                fixed_v: cell.origin.y + offset_second,
            },
            start: cell.origin.z,
            end: cell.origin.z + cell.span,
        },
    }
}

/// The segment of `length` steps from `start` along a grid line.
pub fn segment_from_line(line: EdgeLineKey, start: u32, length: u32) -> (r: EdgeSegmentKey)
    ensures
        r.axis == line.axis,
        r.length == length,
        coord(r.start, line.axis as int) == start,
        coord(r.start, other_axes(line.axis as int).0) == line.fixed_u,
        coord(r.start, other_axes(line.axis as int).1) == line.fixed_v,
{
    let corner = match line.axis {
        0 => CornerKey::new(start, line.fixed_u, line.fixed_v),
        1 => CornerKey::new(line.fixed_u, start, line.fixed_v),
        _ => CornerKey::new(line.fixed_u, line.fixed_v, start),
    };
    EdgeSegmentKey { axis: line.axis, start: corner, length }
}

/// Whether `value` lies on the low (`0`) or high (`1`) boundary of the
/// interval `origin..=origin + span`, or on neither.
pub fn boundary_bit(value: u32, origin: u32, span: u32) -> (r: Option<u8>)
    requires
        origin + span <= u32::MAX,
    ensures
        r == (if value == origin {
            Some(0u8)
        } else if value == origin + span {
            Some(1u8)
        } else {
            None
        }),
{
    if value == origin {
        Some(0)
    } else if value == origin + span {
        Some(1)
    } else {
        None
    }
}

/// The cube edge along `axis` whose two other coordinates are at the
/// `first` and `second` boundaries (`0` low, `1` high).
pub open spec fn local_edge(axis: int, first: int, second: int) -> int {
    if axis == 0 {
        if first == 0 {
            if second == 0 {
                0
            } else {
                4
            }
        } else {
            if second == 0 {
                2
            } else {
                6
            }
        }
    } else if axis == 1 {
        if first == 0 {
            if second == 0 {
                3
            } else {
                7
            }
        } else {
            if second == 0 {
                1
            } else {
                5
            }
        }
    } else {
        if first == 0 {
            if second == 0 {
                8
            } else {
                11
            }
        } else {
            if second == 0 {
                9
            } else {
                10
            }
        }
    }
}

/// The local cube edge of a segment from its boundary bits, or `None` when
/// either bit is missing.
pub fn local_edge_index(axis: u8, first: Option<u8>, second: Option<u8>) -> (r: Option<u8>)
    requires
        first matches Some(f) ==> f < 2,
        second matches Some(s) ==> s < 2,
    ensures
        r == (match (first, second) {
            (Some(f), Some(s)) => Some(local_edge(axis as int, f as int, s as int) as u8),
            _ => None,
        }),
{
    let f = match first {
        Some(f) => f,
        None => {
            return None;
        },
    };
    let s = match second {
        Some(s) => s,
        None => {
            return None;
        },
    };
    let table: [[u8; 2]; 2] = match axis {
        0 => [[0, 4], [2, 6]],
        1 => [[3, 7], [1, 5]],
        _ => [[8, 11], [9, 10]],
    };
    Some(table[f as usize][s as usize])
}

/// The route of an edge segment through `cell`: the local cube edge it lies
/// on, when it lies on one, else the cell's only component.
pub fn component_route_in(cell: CellKey, segment: EdgeSegmentKey) -> (r: ComponentRoute)
    requires
        cell.fits(),
    ensures
        r == route(cell, segment),
{
    let fixed = segment.start;
    let route = match segment.axis {
        0 => local_edge_index(
            0,
            boundary_bit(fixed.y, cell.origin.y, cell.span),
            boundary_bit(fixed.z, cell.origin.z, cell.span),
        ),
        1 => local_edge_index(
            1,
            boundary_bit(fixed.x, cell.origin.x, cell.span),
            boundary_bit(fixed.z, cell.origin.z, cell.span),
        ),
        _ => local_edge_index(
            2,
            boundary_bit(fixed.x, cell.origin.x, cell.span),
            boundary_bit(fixed.y, cell.origin.y, cell.span),
        ),
    };
    match route {
        Some(edge) => ComponentRoute::LocalEdge(edge),
        None => ComponentRoute::OnlyComponent,
    }
}

/// The route of `segment` through `cell`: the local cube edge it lies on,
/// when both of its fixed coordinates are on the cell's boundary, else the
/// cell's only component.
pub open spec fn route(cell: CellKey, segment: EdgeSegmentKey) -> ComponentRoute {
    let (ua, va) = other_axes(segment.axis as int);
    let fixed = segment.start;
    let first = boundary(coord(fixed, ua), coord(cell.origin, ua), cell.span as int);
    let second = boundary(coord(fixed, va), coord(cell.origin, va), cell.span as int);
    if first >= 0 && second >= 0 {
        ComponentRoute::LocalEdge(local_edge(segment.axis as int, first, second) as u8)
    } else {
        ComponentRoute::OnlyComponent
    }
}

/// `0` or `1` when `value` is on the low or high boundary of
/// `origin..=origin + span`, else `-1`.
pub open spec fn boundary(value: int, origin: int, span: int) -> int {
    if value == origin {
        0
    } else if value == origin + span {
        1
    } else {
        -1
    }
}

/// Bit `shift` of `value`, as `0` or `1`.
pub fn bit(value: usize, shift: u32) -> (r: u32)
    requires
        shift < 32,
    ensures
        r == (value >> shift) % 2,
{
    let set = (value & (1usize << shift)) != 0;
    proof {
        assert(((value & (1usize << shift)) != 0) == ((value >> shift) % 2 == 1)) by (bit_vector)
            requires
                shift < 32,
        ;
        assert((value >> shift) % 2 < 2) by (bit_vector);
    }
    if set {
        1
    } else {
        0
    }
}

/// The corner of corner index `corner` (bit 0 x, bit 1 y, bit 2 z) of a cell.
pub open spec fn cell_corner(cell: CellKey, corner: int) -> CornerKey {
    CornerKey {
        x: (cell.origin.x + (if corner % 2 == 1 {
            cell.span as int
        } else {
            0
        })) as u32,
        y: (cell.origin.y + (if (corner / 2) % 2 == 1 {
            cell.span as int
        } else {
            0
        })) as u32,
        z: (cell.origin.z + (if (corner / 4) % 2 == 1 {
            cell.span as int
        } else {
            0
        })) as u32,
    }
}

/// The eight corner keys of a cell, indexed as cube corners.
pub fn cell_corner_keys(cell: CellKey) -> (r: [CornerKey; 8])
    requires
        cell.fits(),
    ensures
        forall|c: int| 0 <= c < 8 ==> #[trigger] r@[c] == cell_corner(cell, c),
{
    let mut keys: [CornerKey; 8] = [cell.origin; 8];
    let mut corner: usize = 0;
    while corner < 8
        invariant
            corner <= 8,
            cell.fits(),
            forall|c: int| 0 <= c < corner ==> #[trigger] keys@[c] == cell_corner(cell, c),
        decreases 8 - corner,
    {
        let bx = bit(corner, 0);
        let by = bit(corner, 1);
        let bz = bit(corner, 2);
        proof {
            assert((corner >> 0u32) % 2 == corner % 2) by (bit_vector);
            assert((corner >> 1u32) % 2 == (corner / 2) % 2) by (bit_vector);
            assert((corner >> 2u32) % 2 == (corner / 4) % 2) by (bit_vector);
        }
        let dx: u32 = if bx == 1 {
            cell.span
        } else {
            0
        };
        let dy: u32 = if by == 1 {
            cell.span
        } else {
            0
        };
        let dz: u32 = if bz == 1 {
            cell.span
        } else {
            0
        };
        keys[corner] = CornerKey {
            x: cell.origin.x + dx,
            y: cell.origin.y + dy,
            z: cell.origin.z + dz,
        };
        corner += 1;
    }
    keys
}

/// `span` is a power of two below `2^32`.
pub open spec fn is_dyadic(span: u32) -> bool {
    exists|k: nat| k < 32 && span == pow2(k)
}

/// Rounds `value` down to a multiple of the dyadic `span`.
pub fn align_down(value: u32, span: u32) -> (r: u32)
    requires
        is_dyadic(span),
    ensures
        r == value - value % span,
{
    let ghost k = choose|k: nat| k < 32 && span == pow2(k);
    proof {
        lemma_pow2_pos(k);
        lemma_u32_low_bits_mask_is_mod(value, k);
        assert(low_bits_mask(k) == span - 1);
        let m = (span - 1) as u32;
        assert(value & !m == value - (value & m)) by (bit_vector);
    }
    value & !(span - 1)
}

/// The four grid corners whose covering cells surround an interior edge
/// segment, in cyclic order, or `None` when the segment lies on the root
/// boundary of a `resolution`-step grid.
pub fn incident_corners(segment: EdgeSegmentKey, resolution: u32) -> (r: Option<[CornerKey; 4]>)
    ensures
        match incident_corner_keys(segment, resolution) {
            Some(keys) => r matches Some(c) && c@ == keys,
            None => r is None,
        },
{
    let (x, y, z) = segment.start.as_tuple();
    match segment.axis {
        0 => {
            if y > 0 && z > 0 && y < resolution && z < resolution {
                Some(
                    [
                        CornerKey::new(x, y - 1, z - 1),
                        CornerKey::new(x, y, z - 1),
                        CornerKey::new(x, y, z),
                        CornerKey::new(x, y - 1, z),
                    ],
                )
            } else {
                None
            }
        },
        1 => {
            if x > 0 && z > 0 && x < resolution && z < resolution {
                Some(
                    [
                        CornerKey::new(x - 1, y, z - 1),
                        CornerKey::new(x - 1, y, z),
                        CornerKey::new(x, y, z),
                        CornerKey::new(x, y, z - 1),
                    ],
                )
            } else {
                None
            }
        },
        _ => {
            if x > 0 && y > 0 && x < resolution && y < resolution {
                Some(
                    [
                        CornerKey::new(x - 1, y - 1, z),
                        CornerKey::new(x, y - 1, z),
                        CornerKey::new(x, y, z),
                        CornerKey::new(x - 1, y, z),
                    ],
                )
            } else {
                None
            }
        },
    }
}

/// The four grid corners whose covering cells surround an interior edge
/// segment, in cyclic order, or `None` on the root boundary.
pub open spec fn incident_corner_keys(segment: EdgeSegmentKey, resolution: u32) -> Option<
    Seq<CornerKey>,
> {
    let (ua, va) = other_axes(segment.axis as int);
    let (u, v) = (coord(segment.start, ua), coord(segment.start, va));
    if 0 < u < resolution && 0 < v < resolution {
        Some(
            Seq::new(
                4,
                |i: int|
                    shifted(
                        segment.start,
                        ua,
                        va,
                        incident_offset(segment.axis as int, i).0,
                        incident_offset(segment.axis as int, i).1,
                    ),
            ),
        )
    } else {
        None
    }
}

/// The offsets, along the two other axes, of the `i`th corner around an
/// edge along `axis`; the cyclic order keeps one orientation about the axis.
pub open spec fn incident_offset(axis: int, i: int) -> (int, int) {
    if i == 0 {
        (-1, -1)
    } else if i == 2 {
        (0, 0)
    } else if (i == 1) == (axis == 1) {
        (-1, 0)
    } else {
        (0, -1)
    }
}

/// `k` moved by `du` along axis `ua` and by `dv` along axis `va`.
pub open spec fn shifted(k: CornerKey, ua: int, va: int, du: int, dv: int) -> CornerKey {
    let x = k.x + (if ua == 0 {
        du
    } else if va == 0 {
        dv
    } else {
        0
    });
    let y = k.y + (if ua == 1 {
        du
    } else if va == 1 {
        dv
    } else {
        0
    });
    let z = k.z + (if ua == 2 {
        du
    } else if va == 2 {
        dv
    } else {
        0
    });
    CornerKey { x: x as u32, y: y as u32, z: z as u32 }
}

/// The four corners looked up around a segment are the corners of the four
/// grid cells that share the segment's line: on each of the two other axes
/// they sit at the segment's coordinate or one step below, all four
/// combinations occur once, and each lies inside the grid. A segment on the
/// root boundary (a fixed coordinate at `0` or at `resolution` or beyond)
/// has none.
pub proof fn lemma_incident_corners_surround_the_segment(segment: EdgeSegmentKey, resolution: u32)
    requires
        segment.axis < 3,
    ensures
        ({
            let axis = segment.axis as int;
            let (ua, va) = other_axes(axis);
            let u = coord(segment.start, ua);
            let v = coord(segment.start, va);
            &&& (u == 0 || v == 0 || u >= resolution || v >= resolution)
                ==> incident_corner_keys(segment, resolution) is None
            &&& (0 < u < resolution && 0 < v < resolution)
                ==> incident_corner_keys(segment, resolution) is Some
            &&& incident_corner_keys(segment, resolution) matches Some(keys) ==> {
                &&& keys.len() == 4
                &&& forall|i: int|
                    0 <= i < 4 ==> {
                        &&& coord(#[trigger] keys[i], axis) == coord(segment.start, axis)
                        &&& 0 <= coord(keys[i], ua) < resolution
                        &&& 0 <= coord(keys[i], va) < resolution
                        &&& u - 1 <= coord(keys[i], ua) <= u
                        &&& v - 1 <= coord(keys[i], va) <= v
                    }
                &&& forall|i: int, j: int| 0 <= i < j < 4 ==> #[trigger] keys[i] != #[trigger] keys[j]
            }
        }),
{
    let axis = segment.axis as int;
    let (ua, va) = other_axes(axis);
    let u = coord(segment.start, ua);
    let v = coord(segment.start, va);
    if 0 < u < resolution && 0 < v < resolution {
        let keys = incident_corner_keys(segment, resolution)->0;
        assert forall|i: int| 0 <= i < 4 implies {
            &&& coord(#[trigger] keys[i], axis) == coord(segment.start, axis)
            &&& 0 <= coord(keys[i], ua) < resolution
            &&& 0 <= coord(keys[i], va) < resolution
            &&& u - 1 <= coord(keys[i], ua) <= u
            &&& v - 1 <= coord(keys[i], va) <= v
            &&& coord(keys[i], ua) == u + incident_offset(axis, i).0
            &&& coord(keys[i], va) == v + incident_offset(axis, i).1
        } by {
            assert(keys[i] == shifted(
                segment.start,
                ua,
                va,
                incident_offset(axis, i).0,
                incident_offset(axis, i).1,
            ));
        }
        assert forall|i: int, j: int| 0 <= i < j < 4 implies #[trigger] keys[i] != #[trigger] keys[j] by {
            assert(coord(keys[i], ua) == u + incident_offset(axis, i).0);
            assert(coord(keys[j], ua) == u + incident_offset(axis, j).0);
            assert(coord(keys[i], va) == v + incident_offset(axis, i).1);
            assert(coord(keys[j], va) == v + incident_offset(axis, j).1);
        }
    }
}

/// A local cube edge names the cube edge that runs along its axis, whose
/// lower corner sits at the given low/high bits on the two other axes.
pub proof fn lemma_local_edge_is_cube_edge(axis: int, first: int, second: int)
    requires
        0 <= axis < 3,
        0 <= first < 2,
        0 <= second < 2,
    ensures
        ({
            let e = local_edge(axis, first, second);
            let (c0, c1) = edge_corners(e);
            let (ua, va) = other_axes(axis);
            &&& 0 <= e < 12
            &&& c1 == c0 + (if axis == 0 {
                1int
            } else if axis == 1 {
                2int
            } else {
                4int
            })
            &&& (c0 / (if ua == 0 {
                1int
            } else {
                2int
            })) % 2 == first
            &&& (c0 / (if va == 1 {
                2int
            } else {
                4int
            })) % 2 == second
            &&& (c0 / (if axis == 0 {
                1int
            } else if axis == 1 {
                2int
            } else {
                4int
            })) % 2 == 0
        }),
{
}

/// The sort key of a corner: `x`, then `y`, then `z`.
pub open spec fn corner_key(c: CornerKey) -> SortKey {
    (c.x, c.y, c.z, 0u32, 0u32, 0u32)
}

/// The distinct corners of `keys`, ordered by `x`, then `y`, then `z`: the
/// order in which missing grid samples are requested.
pub fn sorted_distinct_corners(keys: &[CornerKey]) -> (r: Vec<CornerKey>)
    ensures
        forall|a: int, b: int|
            0 <= a < b < r@.len() ==> key_lt(corner_key(#[trigger] r@[a]), corner_key(#[trigger] r@[b])),
        forall|c: CornerKey| #[trigger] r@.contains(c) <==> keys@.contains(c),
{
    let mut set: Vec<SortKey> = Vec::new();
    let mut i: usize = 0;
    while i < keys.len()
        invariant
            i <= keys@.len(),
            strictly_sorted(set@),
            forall|x: SortKey| #[trigger]
                set@.contains(x) <==> exists|j: int| 0 <= j < i && x == corner_key(#[trigger] keys@[j]),
        decreases keys@.len() - i,
    {
        let c = keys[i];
        insert_sorted(&mut set, (c.x, c.y, c.z, 0, 0, 0));
        proof {
            assert forall|x: SortKey| #[trigger]
                set@.contains(x) <==> exists|j: int| 0 <= j < i + 1 && x == corner_key(#[trigger] keys@[j]) by {
                if exists|j: int| 0 <= j < i + 1 && x == corner_key(#[trigger] keys@[j]) {
                    let j = choose|j: int| 0 <= j < i + 1 && x == corner_key(#[trigger] keys@[j]);
                    if j < i {
                        assert(exists|j: int| 0 <= j < i && x == corner_key(#[trigger] keys@[j]));
                    }
                }
            }
        }
        i += 1;
    }
    let mut r: Vec<CornerKey> = Vec::new();
    let mut j: usize = 0;
    while j < set.len()
        invariant
            j <= set@.len(),
            r@.len() == j,
            forall|a: int| 0 <= a < j ==> corner_key(#[trigger] r@[a]) == set@[a],
            forall|x: SortKey| #[trigger]
                set@.contains(x) <==> exists|k: int| 0 <= k < keys@.len() && x == corner_key(#[trigger] keys@[k]),
        decreases set@.len() - j,
    {
        let x = set[j];
        proof {
            assert(set@.contains(x));
        }
        r.push(CornerKey { x: x.0, y: x.1, z: x.2 });
        j += 1;
    }
    proof {
        assert forall|c: CornerKey| #[trigger] r@.contains(c) <==> keys@.contains(c) by {
            if r@.contains(c) {
                let a = choose|a: int| 0 <= a < r@.len() && r@[a] == c;
                assert(set@.contains(set@[a]));
                let k = choose|k: int| 0 <= k < keys@.len() && set@[a] == corner_key(#[trigger] keys@[k]);
                assert(keys@[k] == c);
            }
            if keys@.contains(c) {
                let k = choose|k: int| 0 <= k < keys@.len() && keys@[k] == c;
                assert(set@.contains(corner_key(keys@[k])));
                let a = choose|a: int| 0 <= a < set@.len() && set@[a] == corner_key(c);
                assert(r@[a] == c);
            }
        }
    }
    r
}

} // verus!
