use exedra_exact::vector;

#[test]
fn arithmetic_is_componentwise() {
    assert_eq!(vector::add([1.0, 2.0, 3.0], [10.0, 20.0, 30.0]), [11.0, 22.0, 33.0]);
    assert_eq!(
        vector::sub([1.0, 2.0, 3.0], [10.0, 20.0, 30.0]),
        [-9.0, -18.0, -27.0]
    );
    assert_eq!(vector::scale([1.0_f32, 2.0, 3.0], 2.0), [2.0, 4.0, 6.0]);
    assert_eq!(vector::dot([1.0, 2.0, 3.0], [4.0, 5.0, 6.0]), 32.0);
}

#[test]
fn cross_follows_the_right_hand_rule() {
    assert_eq!(vector::cross([1.0, 0.0, 0.0], [0.0, 1.0, 0.0]), [0.0, 0.0, 1.0]);
    assert_eq!(vector::cross([0.0, 1.0, 0.0], [1.0, 0.0, 0.0]), [0.0, 0.0, -1.0]);
    assert_eq!(
        vector::cross([1.0_f32, 0.0, 0.0], [1.0, 0.0, 0.0]),
        [0.0, 0.0, 0.0],
        "parallel vectors have no cross product"
    );
}

#[test]
fn derived_helpers_match_their_definitions() {
    let a = [1.0, 2.0, 3.0];
    let b = [4.0, 6.0, 8.0];
    assert_eq!(vector::distance_squared(a, b), 9.0 + 16.0 + 25.0);
    assert_eq!(vector::lerp(a, b, 0.5), [2.5, 4.0, 5.5]);
    assert_eq!(vector::lerp(a, b, 0.0), a);
    assert_eq!(vector::lerp(a, b, 1.0), b);
    let identity = [[1.0, 0.0, 0.0], [0.0, 1.0, 0.0], [0.0, 0.0, 1.0]];
    assert_eq!(vector::det3(identity), 1.0);
    let reflection = [[1.0, 0.0, 0.0], [0.0, 1.0, 0.0], [0.0, 0.0, -1.0]];
    assert_eq!(vector::det3(reflection), -1.0);
    let rotation = [[0.0, -1.0, 0.0], [1.0, 0.0, 0.0], [0.0, 0.0, 1.0]];
    assert_eq!(vector::det3(rotation), 1.0);
}

#[test]
fn operation_order_is_fixed() {
    // These values make `(a0·b0 + a1·b1) + a2·b2` differ from other
    // associations by one ulp, so the test pins the documented order.
    let a = [1.0e16, 1.0, -1.0e16];
    let b = [1.0, 1.0, 1.0];
    assert_eq!(vector::dot(a, b), (a[0] * b[0] + a[1] * b[1]) + a[2] * b[2]);
}

#[test]
fn integer_scalars_give_exact_results() {
    assert_eq!(vector::dot([1_i64, 2, 3], [4, 5, 6]), 32);
    assert_eq!(vector::cross([0_i64, 1, 0], [0, 0, 1]), [1, 0, 0]);
    assert_eq!(vector::det3([[2_i64, 0, 0], [0, 3, 0], [0, 0, 4]]), 24);
    assert_eq!(vector::distance_squared([1_i64, 2, 3], [4, 6, 8]), 50);
    assert_eq!(vector::lerp([1_i64, 2, 3], [5, 6, 7], 2), [9, 10, 11]);
    assert_eq!(vector::scale([1_u32, 2, 3], 3), [3, 6, 9]);
}

#[test]
fn quaternion_products_follow_hamilton_algebra() {
    let i = vector::Quat::new(1_i64, 0, 0, 0);
    let j = vector::Quat::new(0_i64, 1, 0, 0);
    let k = vector::Quat::new(0_i64, 0, 1, 0);
    assert_eq!(i.compose(j), k);
    assert_eq!(j.compose(i), vector::Quat::new(0, 0, -1, 0));
    assert_eq!(i.compose(i), vector::Quat::new(0, 0, 0, -1));
    let q = vector::Quat::new(1.0_f64, 2.0, 3.0, 4.0);
    assert_eq!(q.vector(), [1.0, 2.0, 3.0]);
    assert_eq!(q.dot(q), 30.0);
    let identity = vector::Quat::new(0.0_f64, 0.0, 0.0, 1.0);
    assert_eq!(identity.compose(q), q);
}
