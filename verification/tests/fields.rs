use exedra_exact::fields::{
    left_branch, right_branch, right_negated_branch, Branch, CellHermiteData, Difference,
    EdgeSearchParams, Intersection, Revolve, SmoothUnionStats, Union,
};

#[test]
fn combinators_keep_their_operands() {
    let union = Union::new(1_u8, 2_u8);
    assert_eq!((union.left, union.right), (1, 2));
    let intersection = Intersection::new("a", "b");
    assert_eq!((intersection.left, intersection.right), ("a", "b"));
    let difference = Difference::new(3_i32, -4_i32);
    assert_eq!((difference.left, difference.right), (3, -4));
    let revolve = Revolve::new(7_u16);
    assert_eq!(*revolve.profile(), 7);
    assert_eq!(left_branch(), Branch::Left);
    assert_eq!(right_branch(), Branch::Right);
    assert_eq!(right_negated_branch(), Branch::RightNegated);
}

#[test]
fn edge_search_defaults_to_eight_bisection_steps() {
    assert_eq!(EdgeSearchParams::default().bisection_steps, 8);
}

#[test]
fn hermite_data_keeps_caller_order() {
    let mut hermite = CellHermiteData::new(0b0000_0011);
    hermite.push(9, 'b');
    hermite.push(1, 'a');
    let order: Vec<(u8, char)> = hermite
        .intersections
        .iter()
        .map(|hit| (hit.edge_index, hit.intersection))
        .collect();
    assert_eq!(order, vec![(9, 'b'), (1, 'a')]);
    assert_eq!(hermite.corner_signs, 0b0000_0011);
}

#[test]
fn smooth_union_stats_count_evaluations_and_culls() {
    let mut stats = SmoothUnionStats::default();
    stats.record_points(4, 3, 5);
    assert_eq!(stats.points, 4);
    assert_eq!(stats.child_evaluations, 7);
    assert_eq!(stats.child_culls, 5);
    stats.record_interval(2, 1);
    stats.record_interval(3, 0);
    assert_eq!(stats.intervals, 2);
    assert_eq!(stats.child_intervals, 5);
    assert_eq!(stats.child_interval_culls, 1);
    assert_eq!(stats.points, 4, "interval queries leave point counters alone");
}
