use exedra_exact::grid::{
    align_down, bit, boundary_bit, cell_corner_keys, component_route_in, edge_interval,
    face_patch, incident_corners, local_edge_index, segment_end, segment_from_line,
    sorted_distinct_corners, CellKey,
    ComponentRoute, CornerKey, EdgeLineKey, EdgeSegmentKey, FacePatchKey,
};

fn key(origin: [u32; 3], span: u32, depth: u8) -> CellKey {
    CellKey { origin: CornerKey::new(origin[0], origin[1], origin[2]), span, depth }
}

#[test]
fn segment_end_moves_along_the_axis() {
    let segment = EdgeSegmentKey { axis: 1, start: CornerKey::new(1, 2, 3), length: 4 };
    assert_eq!(segment_end(segment), CornerKey::new(1, 6, 3));
    let segment = EdgeSegmentKey { axis: 2, start: CornerKey::new(1, 2, 3), length: 4 };
    assert_eq!(segment_end(segment), CornerKey::new(1, 2, 7));
}

#[test]
fn face_patches_name_their_owner_side() {
    let cell = key([2, 4, 6], 2, 1);
    assert_eq!(
        face_patch(cell, 0, 1),
        (FacePatchKey { axis: 0, plane: 4, u: 4, v: 6, span: 2 }, 0)
    );
    assert_eq!(
        face_patch(cell, 0, 0),
        (FacePatchKey { axis: 0, plane: 2, u: 4, v: 6, span: 2 }, 1)
    );
    assert_eq!(
        face_patch(cell, 2, 1),
        (FacePatchKey { axis: 2, plane: 8, u: 2, v: 4, span: 2 }, 0)
    );
}

#[test]
fn edge_intervals_lie_on_their_grid_lines() {
    let cell = key([2, 4, 6], 2, 1);
    let interval = edge_interval(cell, 1, true, false);
    assert_eq!(interval.line, EdgeLineKey { axis: 1, fixed_u: 4, fixed_v: 6 });
    assert_eq!((interval.start, interval.end), (4, 6));
    let segment = segment_from_line(interval.line, 5, 1);
    assert_eq!(segment, EdgeSegmentKey { axis: 1, start: CornerKey::new(4, 5, 6), length: 1 });
}

#[test]
fn boundary_bits_and_local_edges_follow_the_cube_numbering() {
    assert_eq!(boundary_bit(5, 5, 2), Some(0));
    assert_eq!(boundary_bit(7, 5, 2), Some(1));
    assert_eq!(boundary_bit(6, 5, 2), None);
    assert_eq!(local_edge_index(0, Some(1), Some(0)), Some(2));
    assert_eq!(local_edge_index(1, Some(0), Some(1)), Some(7));
    assert_eq!(local_edge_index(2, Some(1), Some(1)), Some(10));
    assert_eq!(local_edge_index(1, None, Some(0)), None);
}

#[test]
fn corner_keys_follow_the_corner_bits() {
    assert_eq!(bit(5, 2), 1);
    assert_eq!(bit(5, 1), 0);
    let corners = cell_corner_keys(key([2, 4, 6], 2, 1));
    assert_eq!(corners[0], CornerKey::new(2, 4, 6));
    assert_eq!(corners[1], CornerKey::new(4, 4, 6));
    assert_eq!(corners[6], CornerKey::new(2, 6, 8));
    assert_eq!(corners[7], CornerKey::new(4, 6, 8));
    assert_eq!(align_down(13, 4), 12);
    assert_eq!(align_down(13, 1), 13);
}

#[test]
fn incident_corners_surround_interior_segments_only() {
    let interior = EdgeSegmentKey { axis: 0, start: CornerKey::new(2, 2, 2), length: 1 };
    assert_eq!(
        incident_corners(interior, 4),
        Some([
            CornerKey::new(2, 1, 1),
            CornerKey::new(2, 2, 1),
            CornerKey::new(2, 2, 2),
            CornerKey::new(2, 1, 2),
        ])
    );
    let boundary = EdgeSegmentKey { axis: 0, start: CornerKey::new(0, 0, 2), length: 1 };
    assert_eq!(incident_corners(boundary, 4), None);
}

#[test]
fn segments_on_a_cell_edge_route_to_that_local_edge() {
    let cell = key([0, 0, 0], 2, 1);
    let on_edge = EdgeSegmentKey { axis: 0, start: CornerKey::new(0, 2, 0), length: 1 };
    assert_eq!(component_route_in(cell, on_edge), ComponentRoute::LocalEdge(2));
    let across_face = EdgeSegmentKey { axis: 0, start: CornerKey::new(0, 1, 0), length: 1 };
    assert_eq!(component_route_in(cell, across_face), ComponentRoute::OnlyComponent);
}

#[test]
fn sample_requests_are_sorted_and_distinct() {
    let keys = [
        CornerKey::new(2, 0, 0),
        CornerKey::new(0, 1, 0),
        CornerKey::new(2, 0, 0),
        CornerKey::new(0, 0, 5),
        CornerKey::new(0, 1, 0),
    ];
    assert_eq!(
        sorted_distinct_corners(&keys),
        vec![CornerKey::new(0, 0, 5), CornerKey::new(0, 1, 0), CornerKey::new(2, 0, 0)]
    );
    assert!(sorted_distinct_corners(&[]).is_empty());
}
