use exedra_exact::grid::{CellKey, ComponentRoute, CornerKey, EdgeSegmentKey};
use exedra_exact::locator::LeafLocator;
use exedra_exact::segments::enumerate_segments;

fn key(origin: [u32; 3], span: u32, depth: u8) -> CellKey {
    CellKey {
        origin: CornerKey::new(origin[0], origin[1], origin[2]),
        span,
        depth,
    }
}

fn oriented_corner(axis: u8, along: u32, first: u32, second: u32) -> CornerKey {
    match axis {
        0 => CornerKey::new(along, first, second),
        1 => CornerKey::new(first, along, second),
        _ => CornerKey::new(first, second, along),
    }
}

fn oriented_key(axis: u8, along: u32, first: u32, second: u32, span: u32) -> CellKey {
    let origin = oriented_corner(axis, along, first, second);
    CellKey {
        origin,
        span,
        depth: u8::try_from(3 - span.ilog2()).expect("fixture depth fits u8"),
    }
}

#[test]
fn transition_order_and_component_routes_cover_all_axes_and_face_sides() {
    let low_incident = [[0, 0, 2, 1], [0, 1, 2, 0], [0, 0, 2, 1]];
    let high_incident = [[1, 2, 0, 0], [1, 0, 0, 2], [1, 2, 0, 0]];
    let low_edges = [[2, 0], [1, 3], [9, 8]];
    let high_edges = [[6, 4], [5, 7], [10, 11]];

    for axis in 0_u8..3 {
        for coarse_high in [false, true] {
            let coarse_second = if coarse_high { 4 } else { 0 };
            let fine_second = if coarse_high { 2 } else { 4 };
            let leaves = [
                (0_u32, oriented_key(axis, 0, 0, coarse_second, 4)),
                (1_u32, oriented_key(axis, 2, 0, fine_second, 2)),
                (2_u32, oriented_key(axis, 2, 2, fine_second, 2)),
            ];
            let locator = LeafLocator::new(&leaves, 8);
            let segment = EdgeSegmentKey {
                axis,
                start: oriented_corner(axis, 2, 2, 4),
                length: 2,
            };
            let indices = locator
                .incident_leaves(segment)
                .expect("fixture partition is complete")
                .expect("fixture segment is interior");
            let expected = if coarse_high {
                high_incident[usize::from(axis)]
            } else {
                low_incident[usize::from(axis)]
            };
            assert_eq!(indices, expected, "axis={axis}, coarse_high={coarse_high}");
            assert_eq!(locator.component_route(0, segment), ComponentRoute::OnlyComponent);
            let expected_edges = if coarse_high {
                high_edges[usize::from(axis)]
            } else {
                low_edges[usize::from(axis)]
            };
            assert_eq!(
                locator.component_route(1, segment),
                ComponentRoute::LocalEdge(expected_edges[0])
            );
            assert_eq!(
                locator.component_route(2, segment),
                ComponentRoute::LocalEdge(expected_edges[1])
            );
            assert!(enumerate_segments(&leaves).contains(&segment));
        }
    }
}

#[test]
fn incident_lookup_distinguishes_domain_boundary_from_missing_partition() {
    let interior = EdgeSegmentKey {
        axis: 0,
        start: CornerKey::new(2, 2, 2),
        length: 1,
    };
    let incomplete = LeafLocator::new(&[(0, key([0, 0, 0], 2, 2))], 4);
    assert_eq!(incomplete.incident_leaves(interior), Err(()));

    let boundary = EdgeSegmentKey {
        axis: 0,
        start: CornerKey::new(0, 0, 0),
        length: 1,
    };
    assert_eq!(incomplete.incident_leaves(boundary), Ok(None));
}

#[test]
fn locator_finds_the_leaf_covering_each_corner() {
    let leaves = [
        (7_u32, key([0, 0, 0], 2, 1)),
        (8_u32, key([2, 0, 0], 1, 2)),
    ];
    let locator = LeafLocator::new(&leaves, 4);
    assert_eq!(locator.key(7), key([0, 0, 0], 2, 1));
    assert_eq!(locator.find_covering(CornerKey::new(1, 1, 1)), Some(7));
    assert_eq!(locator.find_covering(CornerKey::new(2, 0, 0)), Some(8));
    assert_eq!(locator.find_covering(CornerKey::new(3, 3, 3)), None);
}

#[test]
fn segments_split_a_coarse_edge_at_fine_breakpoints() {
    // A coarse cell beside two fine cells: the shared coarse edge on the
    // line x = 2 is split where the fine edges end.
    let leaves = [
        (0_u32, key([0, 0, 0], 2, 1)),
        (1_u32, key([2, 0, 0], 1, 2)),
        (2_u32, key([2, 1, 0], 1, 2)),
    ];
    let segments = enumerate_segments(&leaves);
    let split = EdgeSegmentKey { axis: 1, start: CornerKey::new(2, 0, 0), length: 1 };
    let whole = EdgeSegmentKey { axis: 1, start: CornerKey::new(2, 0, 0), length: 2 };
    assert!(segments.contains(&split));
    assert!(!segments.contains(&whole));
    let keys: Vec<_> = segments
        .iter()
        .map(|s| (s.axis, s.start.z, s.start.y, s.start.x, s.length))
        .collect();
    let mut sorted = keys.clone();
    sorted.sort_unstable();
    sorted.dedup();
    assert_eq!(keys, sorted);
}

#[test]
fn segments_cover_every_leaf_edge_step_exactly_once() {
    let leaves = [
        (0_u32, key([0, 0, 0], 2, 1)),
        (1_u32, key([2, 0, 0], 1, 2)),
        (2_u32, key([2, 1, 0], 1, 2)),
        (3_u32, key([3, 0, 0], 1, 2)),
        (4_u32, key([3, 1, 0], 1, 2)),
    ];
    let segments = enumerate_segments(&leaves);
    // The edge of the coarse cell along y at x = 2, z = 0 runs over y in 0..2.
    for y in 0..2 {
        let covering: Vec<_> = segments
            .iter()
            .filter(|s| {
                s.axis == 1 && s.start.x == 2 && s.start.z == 0 && s.start.y <= y && y < s.start.y + s.length
            })
            .collect();
        assert_eq!(covering.len(), 1, "y = {y}");
        assert_eq!(covering[0].length, 1);
    }
}
