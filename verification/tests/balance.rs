use exedra_exact::balance::balance_candidates;
use exedra_exact::grid::{CellKey, CornerKey};

fn key(origin: [u32; 3], span: u32, depth: u8) -> CellKey {
    CellKey { origin: CornerKey::new(origin[0], origin[1], origin[2]), span, depth }
}

#[test]
fn a_coarse_neighbor_two_levels_up_is_refined() {
    let coarse = key([0, 0, 0], 4, 1);
    let leaves = [
        (10_u32, coarse),
        (11_u32, key([4, 0, 0], 1, 3)),
        (12_u32, key([4, 4, 0], 2, 2)),
    ];
    assert_eq!(balance_candidates(&leaves, 8), vec![(coarse, 10)]);
}

#[test]
fn neighbors_one_level_apart_are_balanced() {
    let leaves = [(1_u32, key([2, 0, 0], 2, 2)), (2_u32, key([4, 0, 0], 1, 3))];
    assert!(balance_candidates(&leaves, 8).is_empty());
}

#[test]
fn candidates_are_ordered_by_key_and_listed_once() {
    // Two fine leaves see the same coarse neighbor; a third coarse leaf is
    // seen from another fine leaf.
    let low = key([0, 0, 0], 4, 1);
    let high = key([8, 0, 0], 4, 1);
    let leaves = [
        (5_u32, high),
        (6_u32, low),
        (7_u32, key([4, 0, 0], 1, 3)),
        (8_u32, key([4, 1, 0], 1, 3)),
        (9_u32, key([7, 0, 0], 1, 3)),
    ];
    assert_eq!(balance_candidates(&leaves, 16), vec![(low, 6), (high, 5)]);
}

fn faces_touch(a: &CellKey, b: &CellKey) -> bool {
    let ao = [a.origin.x, a.origin.y, a.origin.z];
    let bo = [b.origin.x, b.origin.y, b.origin.z];
    (0..3).any(|axis| {
        let plane = ao[axis] + a.span == bo[axis] || bo[axis] + b.span == ao[axis];
        let overlaps = (0..3).filter(|&t| t != axis).all(|t| {
            ao[t] < bo[t] + b.span && bo[t] < ao[t] + a.span
        });
        plane && overlaps
    })
}

#[test]
fn an_octree_without_candidates_has_face_neighbors_one_level_apart() {
    let mut leaves = Vec::new();
    let mut id = 0_u32;
    for x in [0, 2] {
        for y in [0, 2] {
            for z in [0, 2] {
                if x == 0 && y == 0 && z == 0 {
                    for (dx, dy, dz) in [
                        (0, 0, 0), (1, 0, 0), (0, 1, 0), (1, 1, 0),
                        (0, 0, 1), (1, 0, 1), (0, 1, 1), (1, 1, 1),
                    ] {
                        leaves.push((id, key([dx, dy, dz], 1, 2)));
                        id += 1;
                    }
                } else {
                    leaves.push((id, key([x, y, z], 2, 1)));
                    id += 1;
                }
            }
        }
    }
    assert_eq!(leaves.len(), 15);
    assert!(balance_candidates(&leaves, 4).is_empty());
    let mut touching = 0;
    for (_, a) in &leaves {
        for (_, b) in &leaves {
            if faces_touch(a, b) {
                touching += 1;
                assert!(a.depth <= b.depth + 1 && b.depth <= a.depth + 1);
            }
        }
    }
    assert!(touching > 0);
}
