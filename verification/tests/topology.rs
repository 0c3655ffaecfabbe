use exedra_exact::fields::CellHermiteData;
use exedra_exact::topology::{
    classify_cell, corner_sign_mask, crossing_edge_count, crossing_edge_mask, cube_edge, face_corner,
    hermite_edge_mask, CellTopology, CornerSign,
};

fn signs_for_mask(mask: u8) -> [CornerSign; 8] {
    core::array::from_fn(|corner| {
        if mask & (1_u8 << corner) != 0 {
            CornerSign::Inside
        } else {
            CornerSign::Outside
        }
    })
}

fn sign_of(value: f32) -> CornerSign {
    if value <= 0.0 {
        CornerSign::Inside
    } else if value > 0.0 {
        CornerSign::Outside
    } else {
        CornerSign::Undefined
    }
}

fn saddles(values: &[f32; 8]) -> [bool; 6] {
    core::array::from_fn(|face| {
        let v: [f32; 4] = core::array::from_fn(|slot| values[face_corner(face, slot)]);
        let determinant = v[0] * v[2] - v[1] * v[3];
        determinant.is_finite() && determinant > 0.0
    })
}

fn classify_values(values: &[f32; 8]) -> CellTopology {
    classify_cell(values.map(sign_of), saddles(values))
}

fn values_for_mask(mask: u8) -> [f32; 8] {
    core::array::from_fn(|corner| if mask & (1_u8 << corner) != 0 { -1.0 } else { 1.0 })
}

fn crossing_mask(values: &[f32; 8]) -> u16 {
    (0..12).fold(0_u16, |mask, edge| {
        let (start, end) = cube_edge(edge);
        if (values[start] <= 0.0 && values[end] > 0.0) || (values[start] > 0.0 && values[end] <= 0.0)
        {
            mask | (1_u16 << edge)
        } else {
            mask
        }
    })
}

#[test]
fn all_corner_masks_partition_exactly_the_crossing_edges_deterministically() {
    for mask in 0_u16..=u16::from(u8::MAX) {
        let values = values_for_mask(u8::try_from(mask).expect("mask is at most u8::MAX"));
        let first = classify_values(&values);
        let second = classify_values(&values);
        assert_eq!(first, second, "mask {mask:#04x}");

        let mut seen = 0_u16;
        let mut previous_minimum = None;
        for component_index in 0..first.component_count() {
            let edge_mask = first.component_mask(component_index);
            assert_ne!(edge_mask, 0, "mask {mask:#04x}");
            assert_eq!(seen & edge_mask, 0, "mask {mask:#04x}");
            let minimum = edge_mask.trailing_zeros();
            if let Some(previous) = previous_minimum {
                assert!(minimum > previous, "component minima must increase for mask {mask:#04x}");
            }
            previous_minimum = Some(minimum);
            seen |= edge_mask;
            for edge in 0_u8..12 {
                if edge_mask & (1_u16 << edge) != 0 {
                    assert_eq!(
                        first.component_for_edge(edge),
                        Some(u8::try_from(component_index).expect("at most 12 components")),
                        "mask {mask:#04x}, edge {edge}"
                    );
                }
            }
        }

        let expected = crossing_mask(&values);
        assert_eq!(seen, expected, "mask {mask:#04x}");
        for edge in 0_u8..12 {
            assert_eq!(
                first.component_for_edge(edge).is_some(),
                expected & (1_u16 << edge) != 0,
                "mask {mask:#04x}, edge {edge}"
            );
        }
    }
}

#[test]
fn opposite_inside_corners_form_two_ordered_components() {
    let topology = classify_values(&values_for_mask(0b1000_0001));
    let masks: Vec<u16> = (0..topology.component_count())
        .map(|component| topology.component_mask(component))
        .collect();
    assert_eq!(masks, vec![0b0001_0000_1001, 0b0100_0110_0000]);
}

#[test]
fn complement_preserves_connectivity() {
    for mask in 0_u16..=u16::from(u8::MAX) {
        let values: [f32; 8] = core::array::from_fn(|corner| {
            let magnitude = corner as f32 + 1.0;
            if mask & (1_u16 << corner) != 0 {
                -magnitude
            } else {
                magnitude
            }
        });
        let complemented = values.map(|value| -value);
        assert_eq!(
            classify_values(&values),
            classify_values(&complemented),
            "mask {mask:#04x}"
        );
    }
}

#[test]
fn every_nan_corner_keeps_the_existing_no_incident_crossing_rule() {
    for nan_corner in 0..8 {
        let mut values = values_for_mask(0b0101_1010);
        values[nan_corner] = f32::NAN;
        let topology = classify_values(&values);

        for edge in 0..12 {
            let (start, end) = cube_edge(edge);
            if start == nan_corner || end == nan_corner {
                assert_eq!(
                    topology.component_for_edge(u8::try_from(edge).expect("cube edge index fits in u8")),
                    None,
                    "edge {edge} is incident to NaN corner {nan_corner}"
                );
            }
        }
    }
}

#[test]
fn hermite_partition_keeps_each_sample_with_its_component() {
    let signs = 0b1000_0001;
    let topology = classify_values(&values_for_mask(signs));
    let mut hermite = CellHermiteData::new(signs);
    for edge in 0_u8..12 {
        if topology.component_for_edge(edge).is_some() {
            hermite.push(edge, ([f32::from(edge), 0.0, 0.0], [1.0_f32, 0.0, 0.0], 0.5_f32));
        }
    }

    let groups = topology.partition_hermite(&hermite);
    assert_eq!(groups.len(), 2);
    for (component, group) in groups.iter().enumerate() {
        let actual = group
            .intersections
            .iter()
            .fold(0_u16, |mask, hit| mask | (1_u16 << hit.edge_index));
        assert_eq!(actual, topology.component_mask(component));
        assert_eq!(group.corner_signs, signs);
    }
}

#[test]
fn checkerboard_face_joins_follow_the_saddle_sign() {
    // Corners 0 and 3 inside on the low z face: a checkerboard face.
    let signs = signs_for_mask(0b0000_1001);
    let positive = classify_cell(signs, [true, false, false, false, false, false]);
    let negative = classify_cell(signs, [false; 6]);
    assert!(positive.has_ambiguous_face());
    assert_eq!(positive.ambiguous_face_mask(), 0b0000_0001);
    // The inside corners 0 and 3 each cut off edges (0, 3, 8) and (1, 2, 10).
    // A positive saddle joins face slots (0, 1) and (2, 3): one component.
    assert_eq!(positive.component_count(), 1);
    assert_eq!(positive.component_for_edge(0), positive.component_for_edge(1));
    // Otherwise slots (0, 3) and (1, 2): the corners stay apart.
    assert_eq!(negative.component_count(), 2);
    assert_eq!(negative.component_mask(0), 0b0001_0000_1001);
    assert_eq!(negative.component_mask(1), 0b0100_0000_0110);
    assert_eq!(negative.component_for_edge(0), negative.component_for_edge(3));
    assert_ne!(negative.component_for_edge(0), negative.component_for_edge(1));
}

#[test]
fn no_crossing_gives_no_component() {
    let topology = classify_cell([CornerSign::Undefined; 8], [false; 6]);
    assert_eq!(topology.component_count(), 0);
    assert!(!topology.has_ambiguous_face());
    for edge in 0_u8..13 {
        assert_eq!(topology.component_for_edge(edge), None);
    }
}

#[test]
fn corner_and_edge_masks_count_the_crossings() {
    let signs = signs_for_mask(0b1000_0001);
    assert_eq!(corner_sign_mask(signs), 0b1000_0001);
    assert_eq!(crossing_edge_mask(signs), 0b0101_0110_1001);
    assert_eq!(crossing_edge_count(signs), 6);
    let mut with_undefined = signs;
    with_undefined[0] = CornerSign::Undefined;
    assert_eq!(corner_sign_mask(with_undefined), 0b1000_0000);
    assert_eq!(crossing_edge_count(with_undefined), 3);
    let mut hermite = CellHermiteData::new(0b1000_0001);
    hermite.push(3, ());
    hermite.push(8, ());
    hermite.push(3, ());
    hermite.push(12, ());
    assert_eq!(hermite_edge_mask(&hermite), 0b0001_0000_1000);
}

fn face_view(values: &[f32; 8], face: usize) -> [f32; 4] {
    core::array::from_fn(|slot| values[face_corner(face, slot)])
}

fn saddle_of(view: [f32; 4]) -> bool {
    let determinant = view[0] * view[2] - view[1] * view[3];
    determinant.is_finite() && determinant > 0.0
}

#[test]
fn checkerboard_face_decision_matches_every_adjacent_cell_view() {
    for shared in [
        [2.0, -1.0, 3.0, -1.5],
        [1.0, -3.0, 1.5, -2.0],
        [1.0, -1.0, 1.0, -1.0],
    ] {
        for [low_face, high_face] in [[0, 1], [2, 3], [4, 5]] {
            let mut low_cell = [1.0_f32; 8];
            let mut high_cell = [1.0_f32; 8];
            for (slot, value) in shared.into_iter().enumerate() {
                low_cell[face_corner(high_face, slot)] = value;
                high_cell[face_corner(low_face, slot)] = value;
            }

            let low_view = face_view(&low_cell, high_face);
            let high_view = face_view(&high_cell, low_face);
            assert_eq!(low_view, shared);
            assert_eq!(high_view, shared);
            assert_eq!(
                saddle_of(low_view),
                saddle_of(high_view),
                "faces {low_face}/{high_face}, values {shared:?}"
            );
            let low_topology = classify_values(&low_cell);
            let high_topology = classify_values(&high_cell);
            assert_eq!(
                low_topology.ambiguous_face_mask() >> high_face & 1,
                high_topology.ambiguous_face_mask() >> low_face & 1
            );
        }
    }
}
