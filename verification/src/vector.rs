//! Small 3-vector helpers over plain arrays, generic over the scalar.
//!
//! Every helper evaluates one fixed expression tree built from the scalar's
//! `+`, `-` and `*`; the contracts spell that tree out through the operator
//! specifications, so the order of evaluation is part of what is proved.
//! For integer scalars the operator specifications are the exact integer
//! operations and each `requires` asks that no step overflows.
//!
//! Every contract here requires `ring_ops::<T>()`: that the scalar's
//! operators follow their specifications. vstd gives `f32` and `f64` no such
//! specification, so for floating-point scalars no call meets these
//! contracts and they state nothing of the result; the floating-point
//! helpers live outside the verified library.
use vstd::prelude::*;
use core::ops::{Add, Mul, Sub};
use vstd::std_specs::ops::{AddSpec, MulSpec, SubSpec};

verus! {

/// `x + y` as the scalar's addition specifies it.
pub open spec fn plus<T: Add<Output = T>>(x: T, y: T) -> T {
    x.add_spec(y)
}

/// `x - y` as the scalar's subtraction specifies it.
pub open spec fn minus<T: Sub<Output = T>>(x: T, y: T) -> T {
    x.sub_spec(y)
}

/// `x * y` as the scalar's multiplication specifies it.
pub open spec fn times<T: Mul<Output = T>>(x: T, y: T) -> T {
    x.mul_spec(y)
}

/// The dot product tree `(a0·b0 + a1·b1) + a2·b2`.
pub open spec fn dot_tree<T: Add<Output = T> + Mul<Output = T>>(a: [T; 3], b: [T; 3]) -> T {
    plus(plus(times(a[0], b[0]), times(a[1], b[1])), times(a[2], b[2]))
}

/// The cross product, each component one subtraction of two products.
pub open spec fn cross_tree<T: Sub<Output = T> + Mul<Output = T>>(a: [T; 3], b: [T; 3]) -> [T; 3] {
    [
        minus(times(a[1], b[2]), times(a[2], b[1])),
        minus(times(a[2], b[0]), times(a[0], b[2])),
        minus(times(a[0], b[1]), times(a[1], b[0])),
    ]
}

/// The 2×2 minor `p·q - r·s` used by the cofactor expansion.
pub open spec fn minor_tree<T: Sub<Output = T> + Mul<Output = T>>(p: T, q: T, r: T, s: T) -> T {
    minus(times(p, q), times(r, s))
}

/// The cofactor expansion of a 3×3 determinant along the first row.
pub open spec fn det3_tree<T: Add<Output = T> + Sub<Output = T> + Mul<Output = T>>(m: [[T; 3]; 3]) -> T {
    plus(
        minus(
            times(m[0][0], minor_tree(m[1][1], m[2][2], m[1][2], m[2][1])),
            times(m[0][1], minor_tree(m[1][0], m[2][2], m[1][2], m[2][0])),
        ),
        times(m[0][2], minor_tree(m[1][0], m[2][1], m[1][1], m[2][0])),
    )
}

/// The scalar's `+`, `-` and `*` follow their operator specifications
/// (true of every primitive integer type).
pub open spec fn ring_ops<T: Add<Output = T> + Sub<Output = T> + Mul<Output = T>>() -> bool {
    T::obeys_add_spec() && T::obeys_sub_spec() && T::obeys_mul_spec()
}

/// Every step of the dot product tree stays in the scalar's domain.
pub open spec fn dot_defined<T: Add<Output = T> + Mul<Output = T>>(a: [T; 3], b: [T; 3]) -> bool {
    &&& a[0].mul_req(b[0])
    &&& a[1].mul_req(b[1])
    &&& a[2].mul_req(b[2])
    &&& times(a[0], b[0]).add_req(times(a[1], b[1]))
    &&& plus(times(a[0], b[0]), times(a[1], b[1])).add_req(times(a[2], b[2]))
}

/// Every step of the 2×2 minor `p·q - r·s` stays in the scalar's domain.
pub open spec fn minor_defined<T: Sub<Output = T> + Mul<Output = T>>(p: T, q: T, r: T, s: T) -> bool {
    p.mul_req(q) && r.mul_req(s) && times(p, q).sub_req(times(r, s))
}

/// Every step of the cofactor expansion stays in the scalar's domain.
pub open spec fn det3_defined<T: Add<Output = T> + Sub<Output = T> + Mul<Output = T>>(m: [[T; 3]; 3]) -> bool {
    let c0 = minor_tree(m[1][1], m[2][2], m[1][2], m[2][1]);
    let c1 = minor_tree(m[1][0], m[2][2], m[1][2], m[2][0]);
    let c2 = minor_tree(m[1][0], m[2][1], m[1][1], m[2][0]);
    &&& minor_defined(m[1][1], m[2][2], m[1][2], m[2][1])
    &&& minor_defined(m[1][0], m[2][2], m[1][2], m[2][0])
    &&& minor_defined(m[1][0], m[2][1], m[1][1], m[2][0])
    &&& m[0][0].mul_req(c0)
    &&& m[0][1].mul_req(c1)
    &&& m[0][2].mul_req(c2)
    &&& times(m[0][0], c0).sub_req(times(m[0][1], c1))
    &&& minus(times(m[0][0], c0), times(m[0][1], c1)).add_req(times(m[0][2], c2))
}

/// Componentwise sum `a + b`.
pub fn add<T: Copy + Add<Output = T> + Sub<Output = T> + Mul<Output = T>>(a: [T; 3], b: [T; 3]) -> (r: [T; 3])
    requires
        ring_ops::<T>(),
        forall|i: int| 0 <= i < 3 ==> (#[trigger] a[i]).add_req(b[i]),
    ensures
        forall|i: int| 0 <= i < 3 ==> #[trigger] r[i] == plus(a[i], b[i]),
{
    let r = [a[0] + b[0], a[1] + b[1], a[2] + b[2]];
    assert(forall|i: int| 0 <= i < 3 ==> r[i] == r@[i]);
    r
}

/// Componentwise difference `a - b`.
pub fn sub<T: Copy + Add<Output = T> + Sub<Output = T> + Mul<Output = T>>(a: [T; 3], b: [T; 3]) -> (r: [T; 3])
    requires
        ring_ops::<T>(),
        forall|i: int| 0 <= i < 3 ==> (#[trigger] a[i]).sub_req(b[i]),
    ensures
        forall|i: int| 0 <= i < 3 ==> #[trigger] r[i] == minus(a[i], b[i]),
{
    let r = [a[0] - b[0], a[1] - b[1], a[2] - b[2]];
    assert(forall|i: int| 0 <= i < 3 ==> r[i] == r@[i]);
    r
}

/// Uniform scaling `a * factor`.
pub fn scale<T: Copy + Add<Output = T> + Sub<Output = T> + Mul<Output = T>>(a: [T; 3], factor: T) -> (r: [T; 3])
    requires
        ring_ops::<T>(),
        forall|i: int| 0 <= i < 3 ==> (#[trigger] a[i]).mul_req(factor),
    ensures
        forall|i: int| 0 <= i < 3 ==> #[trigger] r[i] == times(a[i], factor),
{
    let r = [a[0] * factor, a[1] * factor, a[2] * factor];
    assert(forall|i: int| 0 <= i < 3 ==> r[i] == r@[i]);
    r
}

/// Dot product, evaluated as `(a0·b0 + a1·b1) + a2·b2`.
pub fn dot<T: Copy + Add<Output = T> + Sub<Output = T> + Mul<Output = T>>(a: [T; 3], b: [T; 3]) -> (r: T)
    requires
        ring_ops::<T>(),
        dot_defined(a, b),
    ensures
        r == dot_tree(a, b),
{
    a[0] * b[0] + a[1] * b[1] + a[2] * b[2]
}

/// Cross product `a × b`, each component one subtraction of two products.
pub fn cross<T: Copy + Add<Output = T> + Sub<Output = T> + Mul<Output = T>>(a: [T; 3], b: [T; 3]) -> (r: [T; 3])
    requires
        ring_ops::<T>(),
        minor_defined(a[1], b[2], a[2], b[1]),
        minor_defined(a[2], b[0], a[0], b[2]),
        minor_defined(a[0], b[1], a[1], b[0]),
    ensures
        r == cross_tree(a, b),
{
    [
        a[1] * b[2] - a[2] * b[1],
        a[2] * b[0] - a[0] * b[2],
        a[0] * b[1] - a[1] * b[0],
    ]
}

/// Squared distance between two points, `dot(b - a, b - a)`.
pub fn distance_squared<T: Copy + Add<Output = T> + Sub<Output = T> + Mul<Output = T>>(a: [T; 3], b: [T; 3]) -> (r: T)
    requires
        ring_ops::<T>(),
        forall|i: int| 0 <= i < 3 ==> (#[trigger] b[i]).sub_req(a[i]),
        dot_defined(
            [minus(b[0], a[0]), minus(b[1], a[1]), minus(b[2], a[2])],
            [minus(b[0], a[0]), minus(b[1], a[1]), minus(b[2], a[2])],
        ),
    ensures
        r == dot_tree(
            [minus(b[0], a[0]), minus(b[1], a[1]), minus(b[2], a[2])],
            [minus(b[0], a[0]), minus(b[1], a[1]), minus(b[2], a[2])],
        ),
{
    let d = self::sub(b, a);
    assert(d == [minus(b[0], a[0]), minus(b[1], a[1]), minus(b[2], a[2])]) by {
        assert(d[0] == minus(b[0], a[0]));
        assert(d[1] == minus(b[1], a[1]));
        assert(d[2] == minus(b[2], a[2]));
        assert(d@ =~= seq![minus(b[0], a[0]), minus(b[1], a[1]), minus(b[2], a[2])]);
    }
    self::dot(d, d)
}

/// Linear interpolation `a + (b - a) * t`, componentwise.
pub fn lerp<T: Copy + Add<Output = T> + Sub<Output = T> + Mul<Output = T>>(a: [T; 3], b: [T; 3], t: T) -> (r: [T; 3])
    requires
        ring_ops::<T>(),
        forall|i: int|
            0 <= i < 3 ==> {
                &&& (#[trigger] b[i]).sub_req(a[i])
                &&& minus(b[i], a[i]).mul_req(t)
                &&& a[i].add_req(times(minus(b[i], a[i]), t))
            },
    ensures
        forall|i: int| 0 <= i < 3 ==> #[trigger] r[i] == plus(a[i], times(minus(b[i], a[i]), t)),
{
    assert(b[0].sub_req(a[0]) && b[1].sub_req(a[1]) && b[2].sub_req(a[2]));
    let r = [
        a[0] + (b[0] - a[0]) * t,
        a[1] + (b[1] - a[1]) * t,
        a[2] + (b[2] - a[2]) * t,
    ];
    assert(forall|i: int| 0 <= i < 3 ==> r[i] == r@[i]);
    r
}

/// Determinant of a 3×3 matrix given as rows, by cofactor expansion along
/// the first row. Negative means the matrix reflects.
pub fn det3<T: Copy + Add<Output = T> + Sub<Output = T> + Mul<Output = T>>(m: [[T; 3]; 3]) -> (r: T)
    requires
        ring_ops::<T>(),
        det3_defined(m),
    ensures
        r == det3_tree(m),
{
    m[0][0] * (m[1][1] * m[2][2] - m[1][2] * m[2][1])
        - m[0][1] * (m[1][0] * m[2][2] - m[1][2] * m[2][0])
        + m[0][2] * (m[1][0] * m[2][1] - m[1][1] * m[2][0])
}

/// A quaternion `w + xi + yj + zk`, stored `x, y, z, w`.
#[derive(Copy, Clone, Debug, PartialEq)]
pub struct Quat<T> {
    /// The `i` component.
    pub x: T,
    /// The `j` component.
    pub y: T,
    /// The `k` component.
    pub z: T,
    /// The real component.
    pub w: T,
}

/// `((p0 + p1) + p2) + p3` as the scalar specifies it.
pub open spec fn sum4<T: Add<Output = T>>(p0: T, p1: T, p2: T, p3: T) -> T {
    plus(plus(plus(p0, p1), p2), p3)
}

/// The four-component dot product tree `((x·x' + y·y') + z·z') + w·w'`.
pub open spec fn quat_dot_tree<T: Add<Output = T> + Mul<Output = T>>(a: Quat<T>, b: Quat<T>) -> T {
    sum4(times(a.x, b.x), times(a.y, b.y), times(a.z, b.z), times(a.w, b.w))
}

/// The Hamilton product tree of `a * b`, each component three steps from
/// left to right over four products.
pub open spec fn compose_tree<T: Add<Output = T> + Sub<Output = T> + Mul<Output = T>>(
    a: Quat<T>,
    b: Quat<T>,
) -> Quat<T> {
    Quat {
        x: minus(plus(plus(times(a.w, b.x), times(a.x, b.w)), times(a.y, b.z)), times(a.z, b.y)),
        y: plus(plus(minus(times(a.w, b.y), times(a.x, b.z)), times(a.y, b.w)), times(a.z, b.x)),
        z: plus(minus(plus(times(a.w, b.z), times(a.x, b.y)), times(a.y, b.x)), times(a.z, b.w)),
        w: minus(minus(minus(times(a.w, b.w), times(a.x, b.x)), times(a.y, b.y)), times(a.z, b.z)),
    }
}

/// Every product of a component of `a` with one of `b` stays in the
/// scalar's domain.
pub open spec fn products_defined<T: Mul<Output = T>>(a: Quat<T>, b: Quat<T>) -> bool {
    let pa = seq![a.x, a.y, a.z, a.w];
    let pb = seq![b.x, b.y, b.z, b.w];
    forall|i: int, j: int| 0 <= i < 4 && 0 <= j < 4 ==> (#[trigger] pa[i]).mul_req(#[trigger] pb[j])
}

/// Every step of the four-component dot product stays in the scalar's
/// domain.
pub open spec fn quat_dot_defined<T: Add<Output = T> + Mul<Output = T>>(a: Quat<T>, b: Quat<T>) -> bool {
    &&& products_defined(a, b)
    &&& times(a.x, b.x).add_req(times(a.y, b.y))
    &&& plus(times(a.x, b.x), times(a.y, b.y)).add_req(times(a.z, b.z))
    &&& plus(plus(times(a.x, b.x), times(a.y, b.y)), times(a.z, b.z)).add_req(times(a.w, b.w))
}

/// Every step of the Hamilton product stays in the scalar's domain.
pub open spec fn compose_defined<T: Add<Output = T> + Sub<Output = T> + Mul<Output = T>>(
    a: Quat<T>,
    b: Quat<T>,
) -> bool {
    &&& products_defined(a, b)
    &&& times(a.w, b.x).add_req(times(a.x, b.w))
    &&& plus(times(a.w, b.x), times(a.x, b.w)).add_req(times(a.y, b.z))
    &&& plus(plus(times(a.w, b.x), times(a.x, b.w)), times(a.y, b.z)).sub_req(times(a.z, b.y))
    &&& times(a.w, b.y).sub_req(times(a.x, b.z))
    &&& minus(times(a.w, b.y), times(a.x, b.z)).add_req(times(a.y, b.w))
    &&& plus(minus(times(a.w, b.y), times(a.x, b.z)), times(a.y, b.w)).add_req(times(a.z, b.x))
    &&& times(a.w, b.z).add_req(times(a.x, b.y))
    &&& plus(times(a.w, b.z), times(a.x, b.y)).sub_req(times(a.y, b.x))
    &&& minus(plus(times(a.w, b.z), times(a.x, b.y)), times(a.y, b.x)).add_req(times(a.z, b.w))
    &&& times(a.w, b.w).sub_req(times(a.x, b.x))
    &&& minus(times(a.w, b.w), times(a.x, b.x)).sub_req(times(a.y, b.y))
    &&& minus(minus(times(a.w, b.w), times(a.x, b.x)), times(a.y, b.y)).sub_req(times(a.z, b.z))
}

impl<T: Copy + Add<Output = T> + Sub<Output = T> + Mul<Output = T>> Quat<T> {
    /// A quaternion from its components.
    pub fn new(x: T, y: T, z: T, w: T) -> (r: Self)
        ensures
            r == (Quat { x, y, z, w }),
    {
        Quat { x, y, z, w }
    }

    /// The vector part `[x, y, z]`.
    pub fn vector(self) -> (r: [T; 3])
        ensures
            r@ == seq![self.x, self.y, self.z],
    {
        let r = [self.x, self.y, self.z];
        assert(r@ =~= seq![self.x, self.y, self.z]);
        r
    }

    /// Four-component dot product, evaluated as
    /// `((x·x' + y·y') + z·z') + w·w'`.
    pub fn dot(self, other: Self) -> (r: T)
        requires
            ring_ops::<T>(),
            quat_dot_defined(self, other),
        ensures
            r == quat_dot_tree(self, other),
    {
        proof {
            let pa = seq![self.x, self.y, self.z, self.w];
            let pb = seq![other.x, other.y, other.z, other.w];
            assert(pa[0].mul_req(pb[0]) && pa[1].mul_req(pb[1]) && pa[2].mul_req(pb[2]) && pa[3].mul_req(pb[3]));
        }
        self.x * other.x + self.y * other.y + self.z * other.z + self.w * other.w
    }

    /// The Hamilton product `self * inner`: as a rotation, `inner` first,
    /// then `self`.
    pub fn compose(self, inner: Self) -> (r: Self)
        requires
            ring_ops::<T>(),
            compose_defined(self, inner),
        ensures
            r == compose_tree(self, inner),
    {
        let (a, b) = (self, inner);
        proof {
            let pa = seq![a.x, a.y, a.z, a.w];
            let pb = seq![b.x, b.y, b.z, b.w];
            assert forall|i: int, j: int| 0 <= i < 4 && 0 <= j < 4 implies pa[i].mul_req(pb[j]) by {}
            assert(a.w.mul_req(b.x) && a.x.mul_req(b.w) && a.y.mul_req(b.z) && a.z.mul_req(b.y)) by {
                assert(pa[3].mul_req(pb[0]) && pa[0].mul_req(pb[3]) && pa[1].mul_req(pb[2]) && pa[2].mul_req(pb[1]));
            }
            assert(a.w.mul_req(b.y) && a.x.mul_req(b.z) && a.y.mul_req(b.w) && a.z.mul_req(b.x)) by {
                assert(pa[3].mul_req(pb[1]) && pa[0].mul_req(pb[2]) && pa[1].mul_req(pb[3]) && pa[2].mul_req(pb[0]));
            }
            assert(a.w.mul_req(b.z) && a.x.mul_req(b.y) && a.y.mul_req(b.x) && a.z.mul_req(b.w)) by {
                assert(pa[3].mul_req(pb[2]) && pa[0].mul_req(pb[1]) && pa[1].mul_req(pb[0]) && pa[2].mul_req(pb[3]));
            }
            assert(a.w.mul_req(b.w) && a.x.mul_req(b.x) && a.y.mul_req(b.y) && a.z.mul_req(b.z)) by {
                assert(pa[3].mul_req(pb[3]) && pa[0].mul_req(pb[0]) && pa[1].mul_req(pb[1]) && pa[2].mul_req(pb[2]));
            }
        }
        Quat {
            x: a.w * b.x + a.x * b.w + a.y * b.z - a.z * b.y,
            y: a.w * b.y - a.x * b.z + a.y * b.w + a.z * b.x,
            z: a.w * b.z + a.x * b.y - a.y * b.x + a.z * b.w,
            w: a.w * b.w - a.x * b.x - a.y * b.y - a.z * b.z,
        }
    }
}

} // verus!
