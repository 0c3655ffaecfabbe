//! Deterministic surface-component classification inside one cube cell.
//!
//! A cube cell has eight corners and twelve edges. An edge "crosses" when
//! its two corner samples lie on opposite sides of the surface. Crossing
//! edges on one face are joined: a face with two crossings joins them, and a
//! checkerboard face (four crossings) joins edge slots `(0, 1)` and `(2, 3)`
//! when its saddle determinant is positive, else `(0, 3)` and `(1, 2)`.
//! The components of a cell are the classes of crossing edges connected by
//! these joins, numbered in order of their smallest edge.

use vstd::prelude::*;

use crate::fields::{CellHermiteData, CellHermiteIntersection};

verus! {

/// The two corners joined by cube edge `e` (corner bit 0 is x, bit 1 is y,
/// bit 2 is z).
pub open spec fn edge_corners(e: int) -> (int, int) {
    if e == 0 {
        (0, 1)
    } else if e == 1 {
        (1, 3)
    } else if e == 2 {
        (2, 3)
    } else if e == 3 {
        (0, 2)
    } else if e == 4 {
        (4, 5)
    } else if e == 5 {
        (5, 7)
    } else if e == 6 {
        (6, 7)
    } else if e == 7 {
        (4, 6)
    } else if e == 8 {
        (0, 4)
    } else if e == 9 {
        (1, 5)
    } else if e == 10 {
        (3, 7)
    } else {
        (2, 6)
    }
}

/// The four corners of face `f` in its canonical cycle. Low and high faces on
/// one axis share the same in-plane cycle.
pub open spec fn face_corners(f: int) -> Seq<int> {
    if f == 0 {
        seq![0, 1, 3, 2]
    } else if f == 1 {
        seq![4, 5, 7, 6]
    } else if f == 2 {
        seq![0, 1, 5, 4]
    } else if f == 3 {
        seq![2, 3, 7, 6]
    } else if f == 4 {
        seq![0, 2, 6, 4]
    } else {
        seq![1, 3, 7, 5]
    }
}

/// The four edges of face `f`; edge slot `i` joins corner slots `i` and
/// `(i + 1) % 4`.
pub open spec fn face_edges(f: int) -> Seq<int> {
    if f == 0 {
        seq![0, 1, 2, 3]
    } else if f == 1 {
        seq![4, 5, 6, 7]
    } else if f == 2 {
        seq![0, 9, 4, 8]
    } else if f == 3 {
        seq![2, 10, 6, 11]
    } else if f == 4 {
        seq![3, 11, 7, 8]
    } else {
        seq![1, 10, 5, 9]
    }
}

/// The crossing edge slots of face `f` among slots `0..n`, in slot order.
pub open spec fn crossing_slots_upto(crossing: Seq<bool>, f: int, n: int) -> Seq<int>
    decreases n,
{
    if n <= 0 {
        Seq::empty()
    } else {
        let prev = crossing_slots_upto(crossing, f, n - 1);
        if crossing[face_edges(f)[n - 1]] {
            prev.push(n - 1)
        } else {
            prev
        }
    }
}

/// The crossing edge slots of face `f`, in slot order.
pub open spec fn crossing_slots(crossing: Seq<bool>, f: int) -> Seq<int> {
    crossing_slots_upto(crossing, f, 4)
}

/// The pairs of edges that face `f` joins.
pub open spec fn face_links(crossing: Seq<bool>, saddle_positive: Seq<bool>, f: int) -> Seq<
    (int, int),
> {
    let s = crossing_slots(crossing, f);
    let e = face_edges(f);
    if s.len() == 2 {
        seq![(e[s[0]], e[s[1]])]
    } else if s.len() == 4 {
        if saddle_positive[f] {
            seq![(e[0], e[1]), (e[2], e[3])]
        } else {
            seq![(e[0], e[3]), (e[1], e[2])]
        }
    } else {
        Seq::empty()
    }
}

/// Some face joins edges `a` and `b` directly.
pub open spec fn linked(crossing: Seq<bool>, saddle_positive: Seq<bool>, a: int, b: int) -> bool {
    exists|f: int, i: int|
        0 <= f < 6 && 0 <= i < face_links(crossing, saddle_positive, f).len() && (
        #[trigger] face_links(crossing, saddle_positive, f)[i] == (a, b) || face_links(
            crossing,
            saddle_positive,
            f,
        )[i] == (b, a))
}

/// `path` walks over crossing edges, each step along a face join.
pub open spec fn is_join_path(crossing: Seq<bool>, saddle_positive: Seq<bool>, path: Seq<int>) -> bool {
    &&& path.len() >= 1
    &&& forall|i: int| 0 <= i < path.len() ==> 0 <= #[trigger] path[i] < 12 && crossing[path[i]]
    &&& forall|i: int|
        0 <= i < path.len() - 1 ==> linked(crossing, saddle_positive, #[trigger] path[i], path[i + 1])
}

/// Crossing edges `a` and `b` belong to one surface component.
#[verifier::opaque]
pub open spec fn connected(crossing: Seq<bool>, saddle_positive: Seq<bool>, a: int, b: int) -> bool {
    exists|path: Seq<int>|
        #[trigger] is_join_path(crossing, saddle_positive, path) && path[0] == a && path.last() == b
}

/// Bit `i` of a 16-bit mask.
pub open spec fn bit16(m: u16, i: int) -> bool {
    (m >> (i as u16)) & 1u16 == 1u16
}

/// Bit `i` of an 8-bit mask.
pub open spec fn bit8(m: u8, i: int) -> bool {
    (m >> (i as u8)) & 1u8 == 1u8
}

/// One connected set of crossing cube edges.
#[derive(Copy, Clone, Debug, Eq, PartialEq, Structural)]
pub struct CellComponent {
    /// Bit `e` is set when edge `e` belongs to the component.
    pub edge_mask: u16,
}

/// Crossing connectivity for one cube cell.
#[derive(Debug, Eq, PartialEq)]
pub struct CellTopology {
    components: Vec<CellComponent>,
    edge_components: [Option<u8>; 12],
    ambiguous_face_mask: u8,
}

impl CellTopology {
    #[verifier::type_invariant]
    spec fn at_most_twelve(self) -> bool {
        self.components@.len() <= 12
    }

    /// The component of edge `e`, if it crosses.
    pub closed spec fn edge_component(&self, e: int) -> Option<u8> {
        self.edge_components@[e]
    }

    /// Some edge below `e` belongs to component `d`.
    pub open spec fn numbered_before(&self, d: int, e: int) -> bool {
        exists|e2: int| 0 <= e2 < e && #[trigger] self.edge_component(e2) == Some(d as u8)
    }

    /// `self` is the classification of a cell whose edge `e` crosses when
    /// `crossing[e]` holds and whose face `f` has a positive, finite saddle
    /// determinant when `saddle_positive[f]` holds:
    /// - exactly the crossing edges have a component;
    /// - two crossing edges share a component exactly when they are
    ///   connected through face joins;
    /// - components are numbered `0..count()` in order of their smallest
    ///   edge, and each is used by some edge (`numbered_before(c, 12)`);
    /// - component `c`'s mask holds exactly the bits of its edges;
    /// - the ambiguous-face mask holds exactly the checkerboard faces.
    pub open spec fn classifies(&self, crossing: Seq<bool>, saddle_positive: Seq<bool>) -> bool {
        &&& forall|e: int| 0 <= e < 12 ==> (#[trigger] self.edge_component(e) is Some) == crossing[e]
        &&& forall|a: int, b: int|
            0 <= a < 12 && 0 <= b < 12 && crossing[a] && crossing[b] ==> ((
            #[trigger] self.edge_component(a) == #[trigger] self.edge_component(b)) <==> connected(
                crossing,
                saddle_positive,
                a,
                b,
            ))
        &&& forall|e: int|
            0 <= e < 12 && #[trigger] self.edge_component(e) is Some ==> self.edge_component(e)->0
                < self.count()
        &&& forall|c: int| 0 <= c < self.count() ==> #[trigger] self.numbered_before(c, 12)
        &&& forall|c: int| 0 <= c < self.count() ==> #[trigger] self.mask(c) != 0u16
        &&& forall|c: int| 0 <= c < self.count() ==> #[trigger] self.mask(c) < 4096u16
        &&& forall|c: int, e: int|
            0 <= c < self.count() && 0 <= e < 12 ==> (bit16(#[trigger] self.mask(c), e)
                <==> #[trigger] self.edge_component(e) == Some(c as u8))
        &&& forall|e: int, d: int|
            0 <= e < 12 && #[trigger] self.edge_component(e) is Some && 0 <= d
                < self.edge_component(e)->0 ==> #[trigger] self.numbered_before(d, e)
        &&& self.count() <= 12
        &&& self.ambiguous_faces() < 64u8
        &&& forall|f: int|
            0 <= f < 6 ==> (bit8(self.ambiguous_faces(), f) <==> crossing_slots(crossing, f).len()
                == 4)
    }

    /// The number of components.
    pub closed spec fn count(&self) -> int {
        self.components@.len() as int
    }

    /// The edge mask of component `c`.
    pub closed spec fn mask(&self, c: int) -> u16 {
        self.components@[c].edge_mask
    }

    /// Bit `f` is set when face `f` is a checkerboard face.
    pub closed spec fn ambiguous_faces(&self) -> u8 {
        self.ambiguous_face_mask
    }

    /// The component of cube edge `edge`, or `None` when it does not cross
    /// or is not a cube edge.
    pub fn component_for_edge(&self, edge: u8) -> (r: Option<u8>)
        ensures
            r == (if edge < 12 {
                self.edge_component(edge as int)
            } else {
                None
            }),
    {
        if edge < 12 {
            self.edge_components[edge as usize]
        } else {
            None
        }
    }

    /// Whether any face of the cell is a checkerboard face.
    pub fn has_ambiguous_face(&self) -> (r: bool)
        ensures
            r == (self.ambiguous_faces() != 0),
    {
        self.ambiguous_face_mask != 0
    }

    /// The number of components.
    pub fn component_count(&self) -> (r: usize)
        ensures
            r == self.count(),
    {
        self.components.len()
    }

    /// The edge mask of component `index`.
    pub fn component_mask(&self, index: usize) -> (r: u16)
        requires
            index < self.count(),
        ensures
            r == self.mask(index as int),
    {
        self.components[index].edge_mask
    }

    /// The intersections among `hits` whose edge belongs to component `c`,
    /// in their original order.
    pub open spec fn component_hits<I>(&self, hits: Seq<CellHermiteIntersection<I>>, c: int) -> Seq<
        CellHermiteIntersection<I>,
    >
        decreases hits.len(),
    {
        if hits.len() == 0 {
            hits
        } else {
            let prev = self.component_hits(hits.drop_last(), c);
            if hits.last().edge_index < 12 && self.edge_component(hits.last().edge_index as int)
                == Some(c as u8) {
                prev.push(hits.last())
            } else {
                prev
            }
        }
    }

    /// Partitions Hermite intersections by component, keeping their order
    /// within each component; intersections on edges without a component
    /// are left out.
    pub fn partition_hermite<I: Copy>(&self, hermite: &CellHermiteData<I>) -> (groups: Vec<
        CellHermiteData<I>,
    >)
        ensures
            groups@.len() == self.count(),
            forall|c: int|
                0 <= c < self.count() ==> (#[trigger] groups@[c]).corner_signs
                    == hermite.corner_signs && groups@[c].intersections@ == self.component_hits(
                    hermite.intersections@,
                    c,
                ),
    {
        proof {
            use_type_invariant(self);
        }
        let mut groups: Vec<CellHermiteData<I>> = Vec::new();
        let count = self.components.len();
        let mut c: usize = 0;
        while c < count
            invariant
                c <= count,
                count == self.count(),
                count <= 12,
                groups@.len() == c,
                forall|d: int|
                    0 <= d < c ==> (#[trigger] groups@[d]).corner_signs == hermite.corner_signs
                        && groups@[d].intersections@ == self.component_hits(
                        hermite.intersections@,
                        d,
                    ),
            decreases count - c,
        {
            let mut group = CellHermiteData::new(hermite.corner_signs);
            let mut i: usize = 0;
            let n = hermite.intersections.len();
            while i < n
                invariant
                    i <= n,
                    n == hermite.intersections@.len(),
                    c < 12,
                    group.corner_signs == hermite.corner_signs,
                    group.intersections@ == self.component_hits(
                        hermite.intersections@.take(i as int),
                        c as int,
                    ),
                decreases n - i,
            {
                let hit = hermite.intersections[i];
                proof {
                    assert(hermite.intersections@.take(i as int + 1).drop_last()
                        =~= hermite.intersections@.take(i as int));
                }
                if self.component_for_edge(hit.edge_index) == Some(c as u8) {
                    group.push(hit.edge_index, hit.intersection);
                }
                i += 1;
            }
            proof {
                assert(hermite.intersections@.take(n as int) =~= hermite.intersections@);
            }
            groups.push(group);
            c += 1;
        }
        groups
    }

    /// The checkerboard faces of the cell, one bit per face.
    pub fn ambiguous_face_mask(&self) -> (r: u8)
        ensures
            r == self.ambiguous_faces(),
    {
        self.ambiguous_face_mask
    }
}

/// The corners joined by cube edge `edge`.
pub fn cube_edge(edge: usize) -> (r: (usize, usize))
    requires
        edge < 12,
    ensures
        r.0 == edge_corners(edge as int).0,
        r.1 == edge_corners(edge as int).1,
{
    match edge {
        0 => (0, 1),
        1 => (1, 3),
        2 => (2, 3),
        3 => (0, 2),
        4 => (4, 5),
        5 => (5, 7),
        6 => (6, 7),
        7 => (4, 6),
        8 => (0, 4),
        9 => (1, 5),
        10 => (3, 7),
        _ => (2, 6),
    }
}

/// Corner slot `slot` of face `face`.
pub fn face_corner(face: usize, slot: usize) -> (r: usize)
    requires
        face < 6,
        slot < 4,
    ensures
        r == face_corners(face as int)[slot as int],
{
    let row: [usize; 4] = match face {
        0 => [0, 1, 3, 2],
        1 => [4, 5, 7, 6],
        2 => [0, 1, 5, 4],
        3 => [2, 3, 7, 6],
        4 => [0, 2, 6, 4],
        _ => [1, 3, 7, 5],
    };
    row[slot]
}

/// Edge slot `slot` of face `face`.
pub fn face_edge(face: usize, slot: usize) -> (r: u8)
    requires
        face < 6,
        slot < 4,
    ensures
        r == face_edges(face as int)[slot as int],
{
    let row: [u8; 4] = match face {
        0 => [0, 1, 2, 3],
        1 => [4, 5, 6, 7],
        2 => [0, 9, 4, 8],
        3 => [2, 10, 6, 11],
        4 => [3, 11, 7, 8],
        _ => [1, 10, 5, 9],
    };
    row[slot]
}

// ---------------------------------------------------------------------------
// Union-find over the twelve edges.
// ---------------------------------------------------------------------------

/// Parent links form a forest over the marked edges: a marked edge's parent
/// is a marked edge at or below it, and unmarked edges hold `255`.
pub open spec fn forest(p: Seq<u8>) -> bool {
    &&& p.len() == 12
    &&& forall|e: int|
        0 <= e < 12 && #[trigger] p[e] != 255u8 ==> p[e] as int <= e && p[p[e] as int] != 255u8
}

/// The root of edge `e`'s tree.
pub open spec fn root(p: Seq<u8>, e: int) -> int
    decreases e,
{
    if e < 0 || e >= 12 || p[e] as int >= e {
        e
    } else {
        root(p, p[e] as int)
    }
}

/// The root an edge has after the roots of `a` and `b` (`ra`, `rb`) merge,
/// given its root `r` before.
pub open spec fn merged_root(ra: int, rb: int, r: int) -> int {
    if ra == rb {
        r
    } else if ra < rb {
        if r == rb {
            ra
        } else {
            r
        }
    } else {
        if r == ra {
            rb
        } else {
            r
        }
    }
}

proof fn lemma_root(p: Seq<u8>, e: int)
    requires
        forest(p),
        0 <= e < 12,
        p[e] != 255u8,
    ensures
        0 <= root(p, e) <= e,
        p[root(p, e)] as int == root(p, e),
    decreases e,
{
    if p[e] as int >= e {
    } else {
        lemma_root(p, p[e] as int);
    }
}

proof fn lemma_root_after_link(p: Seq<u8>, hi: int, lo: int, e: int)
    requires
        forest(p),
        0 <= lo < hi < 12,
        p[hi] as int == hi,
        p[lo] as int == lo,
        0 <= e < 12,
        p[e] != 255u8,
    ensures
        root(p.update(hi, lo as u8), e) == (if root(p, e) == hi {
            lo
        } else {
            root(p, e)
        }),
    decreases e,
{
    let q = p.update(hi, lo as u8);
    assert(q[lo] == p[lo]);
    assert(root(q, lo) == lo);
    if p[e] as int == e {
        assert(root(p, e) == e);
        if e == hi {
            assert(q[hi] as int == lo);
            assert(root(q, hi) == root(q, lo));
        } else {
            assert(q[e] == p[e]);
            assert(root(q, e) == e);
        }
    } else {
        assert(p[e] as int <= e);
        assert(e != hi);
        assert(q[e] == p[e]);
        let pe = p[e] as int;
        assert(p[pe] != 255u8);
        lemma_root_after_link(p, hi, lo, pe);
        assert(root(p, e) == root(p, pe));
        assert(root(q, e) == root(q, pe));
    }
}

/// Follows parent links from `edge` to its root.
pub fn find(parents: &[u8; 12], edge: u8) -> (r: u8)
    requires
        forest(parents@),
        edge < 12,
        parents@[edge as int] != 255u8,
    ensures
        r as int == root(parents@, edge as int),
        r < 12,
        parents@[r as int] == r,
{
    let mut e = edge;
    proof {
        lemma_root(parents@, edge as int);
    }
    loop
        invariant
            forest(parents@),
            e < 12,
            parents@[e as int] != 255u8,
            root(parents@, e as int) == root(parents@, edge as int),
        decreases e,
    {
        let parent = parents[e as usize];
        if parent == e {
            return e;
        }
        proof {
            lemma_root(parents@, e as int);
        }
        e = parent;
    }
}

/// Joins the trees of `a` and `b`: the higher of the two roots is linked
/// below the lower one.
pub fn union(parents: &mut [u8; 12], a: u8, b: u8)
    requires
        forest(old(parents)@),
        a < 12,
        b < 12,
        old(parents)@[a as int] != 255u8,
        old(parents)@[b as int] != 255u8,
    ensures
        forest(final(parents)@),
        forall|e: int|
            0 <= e < 12 ==> (#[trigger] final(parents)@[e] == 255u8) == (old(parents)@[e]
                == 255u8),
        forall|e: int|
            0 <= e < 12 && old(parents)@[e] != 255u8 ==> #[trigger] root(final(parents)@, e)
                == merged_root(
                root(old(parents)@, a as int),
                root(old(parents)@, b as int),
                root(old(parents)@, e),
            ),
{
    let a_root = find(parents, a);
    let b_root = find(parents, b);
    if a_root == b_root {
        return;
    }
    let (lower, higher) = if a_root < b_root {
        (a_root, b_root)
    } else {
        (b_root, a_root)
    };
    let ghost p = parents@;
    parents[higher as usize] = lower;
    proof {
        lemma_link_roots(p, higher as int, lower as int);
        assert(parents@ == p.update(higher as int, lower));
    }
}

proof fn lemma_link_roots(p: Seq<u8>, hi: int, lo: int)
    requires
        forest(p),
        0 <= lo < hi < 12,
        p[hi] as int == hi,
        p[lo] as int == lo,
    ensures
        forest(p.update(hi, lo as u8)),
        forall|e: int|
            0 <= e < 12 && p[e] != 255u8 ==> #[trigger] root(p.update(hi, lo as u8), e) == (if root(
                p,
                e,
            ) == hi {
                lo
            } else {
                root(p, e)
            }),
{
    let q = p.update(hi, lo as u8);
    assert forall|e: int| 0 <= e < 12 && p[e] != 255u8 implies #[trigger] root(q, e) == (if root(
        p,
        e,
    ) == hi {
        lo
    } else {
        root(p, e)
    }) by {
        lemma_root_after_link(p, hi, lo, e);
    }
    assert forall|e: int| 0 <= e < 12 && #[trigger] q[e] != 255u8 implies q[e] as int <= e
        && q[q[e] as int] != 255u8 by {
        if e != hi {
            assert(q[e] == p[e]);
        }
    }
}

// ---------------------------------------------------------------------------
// Join paths.
// ---------------------------------------------------------------------------

proof fn lemma_connected_refl(crossing: Seq<bool>, sp: Seq<bool>, a: int)
    requires
        0 <= a < 12,
        crossing[a],
    ensures
        connected(crossing, sp, a, a),
{
    reveal(connected);
    let path = seq![a];
    assert(is_join_path(crossing, sp, path));
}

proof fn lemma_connected_link(crossing: Seq<bool>, sp: Seq<bool>, a: int, b: int)
    requires
        0 <= a < 12,
        0 <= b < 12,
        crossing[a],
        crossing[b],
        linked(crossing, sp, a, b),
    ensures
        connected(crossing, sp, a, b),
{
    reveal(connected);
    let path = seq![a, b];
    assert(path[0] == a && path[1] == b);
    assert(is_join_path(crossing, sp, path));
}

proof fn lemma_connected_sym(crossing: Seq<bool>, sp: Seq<bool>, a: int, b: int)
    requires
        connected(crossing, sp, a, b),
    ensures
        connected(crossing, sp, b, a),
{
    reveal(connected);
    let path = choose|path: Seq<int>|
        #[trigger] is_join_path(crossing, sp, path) && path[0] == a && path.last() == b;
    let rev = path.reverse();
    assert forall|i: int| 0 <= i < rev.len() - 1 implies linked(
        crossing,
        sp,
        #[trigger] rev[i],
        rev[i + 1],
    ) by {
        let j = path.len() - 2 - i;
        assert(rev[i] == path[j + 1]);
        assert(rev[i + 1] == path[j]);
        assert(linked(crossing, sp, path[j], path[j + 1]));
        let (f, k) = choose|f: int, k: int|
            0 <= f < 6 && 0 <= k < face_links(crossing, sp, f).len() && (#[trigger] face_links(
                crossing,
                sp,
                f,
            )[k] == (path[j], path[j + 1]) || face_links(crossing, sp, f)[k] == (
                path[j + 1],
                path[j],
            ));
        assert(face_links(crossing, sp, f)[k] == (rev[i], rev[i + 1]) || face_links(
            crossing,
            sp,
            f,
        )[k] == (rev[i + 1], rev[i]));
    }
    assert(forall|i: int| 0 <= i < rev.len() ==> rev[i] == path[path.len() - 1 - i]);
    assert(is_join_path(crossing, sp, rev));
    assert(rev[0] == b && rev.last() == a);
}

proof fn lemma_connected_trans(crossing: Seq<bool>, sp: Seq<bool>, a: int, b: int, c: int)
    requires
        connected(crossing, sp, a, b),
        connected(crossing, sp, b, c),
    ensures
        connected(crossing, sp, a, c),
{
    reveal(connected);
    let p1 = choose|path: Seq<int>|
        #[trigger] is_join_path(crossing, sp, path) && path[0] == a && path.last() == b;
    let p2 = choose|path: Seq<int>|
        #[trigger] is_join_path(crossing, sp, path) && path[0] == b && path.last() == c;
    let joined = p1 + p2.drop_first();
    assert forall|i: int| 0 <= i < joined.len() implies 0 <= #[trigger] joined[i] < 12
        && crossing[joined[i]] by {
        if i >= p1.len() {
            assert(joined[i] == p2[i - p1.len() + 1]);
        }
    }
    assert forall|i: int| 0 <= i < joined.len() - 1 implies linked(
        crossing,
        sp,
        #[trigger] joined[i],
        joined[i + 1],
    ) by {
        if i < p1.len() - 1 {
            assert(joined[i] == p1[i] && joined[i + 1] == p1[i + 1]);
        } else if i == p1.len() - 1 {
            assert(joined[i] == p2[0]);
            assert(joined[i + 1] == p2[1]);
        } else {
            let j = i - p1.len() + 1;
            assert(joined[i] == p2[j] && joined[i + 1] == p2[j + 1]);
        }
    }
    assert(is_join_path(crossing, sp, joined));
    if p2.len() == 1 {
        assert(joined.last() == p1.last());
    } else {
        assert(joined.last() == p2.last());
    }
}

// ---------------------------------------------------------------------------
// Crossing slots on a face.
// ---------------------------------------------------------------------------

proof fn lemma_face_edges(f: int)
    requires
        0 <= f < 6,
    ensures
        face_edges(f).len() == 4,
        forall|s: int| 0 <= s < 4 ==> 0 <= #[trigger] face_edges(f)[s] < 12,
{
}

proof fn lemma_slots(crossing: Seq<bool>, f: int, n: int)
    requires
        0 <= f < 6,
        0 <= n <= 4,
        crossing.len() == 12,
    ensures
        crossing_slots_upto(crossing, f, n).len() <= n,
        forall|k: int|
            0 <= k < crossing_slots_upto(crossing, f, n).len() ==> 0 <= #[trigger] crossing_slots_upto(
                crossing,
                f,
                n,
            )[k] < n && crossing[face_edges(f)[crossing_slots_upto(crossing, f, n)[k]]],
        forall|k: int, l: int|
            0 <= k < l < crossing_slots_upto(crossing, f, n).len() ==> #[trigger] crossing_slots_upto(
                crossing,
                f,
                n,
            )[k] < #[trigger] crossing_slots_upto(crossing, f, n)[l],
        crossing_slots_upto(crossing, f, n).len() == n ==> forall|k: int|
            0 <= k < n ==> #[trigger] crossing_slots_upto(crossing, f, n)[k] == k,
    decreases n,
{
    lemma_face_edges(f);
    if n > 0 {
        lemma_slots(crossing, f, n - 1);
    }
}

proof fn lemma_links_cross(crossing: Seq<bool>, sp: Seq<bool>, f: int)
    requires
        0 <= f < 6,
        crossing.len() == 12,
    ensures
        forall|i: int|
            0 <= i < face_links(crossing, sp, f).len() ==> {
                let l = #[trigger] face_links(crossing, sp, f)[i];
                &&& 0 <= l.0 < 12
                &&& 0 <= l.1 < 12
                &&& crossing[l.0]
                &&& crossing[l.1]
            },
{
    lemma_slots(crossing, f, 4);
    lemma_face_edges(f);
    let s = crossing_slots(crossing, f);
    let e = face_edges(f);
    if s.len() == 2 {
        assert(0 <= s[0] < 4 && crossing[e[s[0]]]);
        assert(0 <= s[1] < 4 && crossing[e[s[1]]]);
    } else if s.len() == 4 {
        assert(s[0] == 0 && s[1] == 1 && s[2] == 2 && s[3] == 3);
        assert(crossing[e[s[0]]] && crossing[e[s[1]]] && crossing[e[s[2]]] && crossing[e[s[3]]]);
    }
}

proof fn lemma_linked_cross(crossing: Seq<bool>, sp: Seq<bool>, a: int, b: int)
    requires
        crossing.len() == 12,
        linked(crossing, sp, a, b),
    ensures
        0 <= a < 12,
        0 <= b < 12,
        crossing[a],
        crossing[b],
{
    let (f, k) = choose|f: int, k: int|
        0 <= f < 6 && 0 <= k < face_links(crossing, sp, f).len() && (#[trigger] face_links(
            crossing,
            sp,
            f,
        )[k] == (a, b) || face_links(crossing, sp, f)[k] == (b, a));
    lemma_links_cross(crossing, sp, f);
}

/// Along a join path, edges whose links all share roots share one root.
proof fn lemma_path_same_root(
    crossing: Seq<bool>,
    sp: Seq<bool>,
    p: Seq<u8>,
    path: Seq<int>,
    n: int,
)
    requires
        is_join_path(crossing, sp, path),
        1 <= n <= path.len(),
        forall|f: int, i: int|
            0 <= f < 6 && 0 <= i < face_links(crossing, sp, f).len() ==> root(
                p,
                (#[trigger] face_links(crossing, sp, f)[i]).0,
            ) == root(p, face_links(crossing, sp, f)[i].1),
    ensures
        root(p, path[0]) == root(p, path[n - 1]),
    decreases n,
{
    if n > 1 {
        lemma_path_same_root(crossing, sp, p, path, n - 1);
        assert(linked(crossing, sp, path[n - 2], path[n - 1]));
        let (f, k) = choose|f: int, k: int|
            0 <= f < 6 && 0 <= k < face_links(crossing, sp, f).len() && (#[trigger] face_links(
                crossing,
                sp,
                f,
            )[k] == (path[n - 2], path[n - 1]) || face_links(crossing, sp, f)[k] == (
                path[n - 1],
                path[n - 2],
            ));
    }
}

// ---------------------------------------------------------------------------
// Classification.
// ---------------------------------------------------------------------------

/// The parent-link invariants of face processing: a forest over the
/// crossing edges, in which every edge is joined to its root.
pub open spec fn sound_forest(crossing: Seq<bool>, sp: Seq<bool>, p: Seq<u8>) -> bool {
    &&& forest(p)
    &&& forall|e: int| 0 <= e < 12 ==> (#[trigger] p[e] != 255u8) == crossing[e]
    &&& forall|e: int| 0 <= e < 12 && crossing[e] ==> connected(crossing, sp, e, #[trigger] root(p, e))
}

proof fn lemma_union_keeps_sound(
    crossing: Seq<bool>,
    sp: Seq<bool>,
    p: Seq<u8>,
    q: Seq<u8>,
    x: int,
    y: int,
)
    requires
        crossing.len() == 12,
        sound_forest(crossing, sp, p),
        forest(q),
        0 <= x < 12,
        0 <= y < 12,
        crossing[x],
        crossing[y],
        linked(crossing, sp, x, y),
        forall|e: int| 0 <= e < 12 ==> (#[trigger] q[e] == 255u8) == (p[e] == 255u8),
        forall|e: int|
            0 <= e < 12 && p[e] != 255u8 ==> #[trigger] root(q, e) == merged_root(
                root(p, x),
                root(p, y),
                root(p, e),
            ),
    ensures
        sound_forest(crossing, sp, q),
{
    let rx = root(p, x);
    let ry = root(p, y);
    assert(connected(crossing, sp, x, rx));
    assert(connected(crossing, sp, y, ry));
    lemma_connected_link(crossing, sp, x, y);
    lemma_connected_sym(crossing, sp, x, rx);
    lemma_connected_sym(crossing, sp, y, ry);
    lemma_connected_trans(crossing, sp, rx, x, y);
    lemma_connected_trans(crossing, sp, rx, y, ry);
    lemma_connected_sym(crossing, sp, rx, ry);
    assert forall|e: int| 0 <= e < 12 && crossing[e] implies connected(
        crossing,
        sp,
        e,
        #[trigger] root(q, e),
    ) by {
        assert(p[e] != 255u8);
        assert(root(q, e) == merged_root(rx, ry, root(p, e)));
        assert(connected(crossing, sp, e, root(p, e)));
        if rx != ry {
            if root(p, e) == rx && rx > ry {
                lemma_connected_trans(crossing, sp, e, rx, ry);
            } else if root(p, e) == ry && ry > rx {
                lemma_connected_trans(crossing, sp, e, ry, rx);
            }
        }
    }
}

/// Parent links with every crossing edge its own root.
fn singleton_forest(crossing: &[bool; 12], saddle_positive: &[bool; 6]) -> (p: [u8; 12])
    ensures
        sound_forest(crossing@, saddle_positive@, p@),
{
    let mut parents: [u8; 12] = [255u8; 12];
    let mut edge: usize = 0;
    while edge < 12
        invariant
            edge <= 12,
            forall|e: int|
                0 <= e < 12 ==> #[trigger] parents@[e] == (if e < edge && crossing@[e] {
                    e as u8
                } else {
                    255u8
                }),
        decreases 12 - edge,
    {
        if crossing[edge] {
            parents[edge] = edge as u8;
        }
        edge += 1;
    }
    proof {
        assert forall|e: int| 0 <= e < 12 && crossing@[e] implies connected(
            crossing@,
            saddle_positive@,
            e,
            #[trigger] root(parents@, e),
        ) by {
            assert(root(parents@, e) == e);
            lemma_connected_refl(crossing@, saddle_positive@, e);
        }
    }
    parents
}

/// Joins one pair of linked crossing edges.
fn join_pair(
    parents: &mut [u8; 12],
    crossing: &[bool; 12],
    saddle_positive: &[bool; 6],
    a: u8,
    b: u8,
)
    requires
        sound_forest(crossing@, saddle_positive@, old(parents)@),
        a < 12,
        b < 12,
        linked(crossing@, saddle_positive@, a as int, b as int),
    ensures
        sound_forest(crossing@, saddle_positive@, final(parents)@),
        root(final(parents)@, a as int) == root(final(parents)@, b as int),
        forall|x: int, y: int|
            0 <= x < 12 && 0 <= y < 12 && crossing@[x] && crossing@[y] && root(old(parents)@, x)
                == root(old(parents)@, y) ==> #[trigger] root(final(parents)@, x) == #[trigger] root(
                final(parents)@,
                y,
            ),
{
    proof {
        lemma_linked_cross(crossing@, saddle_positive@, a as int, b as int);
    }
    let ghost before = parents@;
    union(parents, a, b);
    proof {
        lemma_union_keeps_sound(crossing@, saddle_positive@, before, parents@, a as int, b as int);
        let ra = root(before, a as int);
        let rb = root(before, b as int);
        assert(root(parents@, a as int) == merged_root(ra, rb, ra));
        assert(root(parents@, b as int) == merged_root(ra, rb, rb));
        assert forall|x: int, y: int|
            0 <= x < 12 && 0 <= y < 12 && crossing@[x] && crossing@[y] && root(before, x) == root(
                before,
                y,
            ) implies #[trigger] root(parents@, x) == #[trigger] root(parents@, y) by {
            assert(root(parents@, x) == merged_root(ra, rb, root(before, x)));
            assert(root(parents@, y) == merged_root(ra, rb, root(before, y)));
        }
    }
}

/// The crossing edge slots of face `face`, in slot order, and their count.
fn face_crossings(crossing: &[bool; 12], face: usize) -> (r: ([u8; 4], usize))
    requires
        face < 6,
    ensures
        r.1 == crossing_slots(crossing@, face as int).len(),
        r.1 <= 4,
        forall|k: int| 0 <= k < r.1 ==> r.0@[k] as int == crossing_slots(crossing@, face as int)[k],
{
    let mut crossings: [u8; 4] = [255u8; 4];
    let mut crossing_count: usize = 0;
    let mut slot: usize = 0;
    proof {
        lemma_face_edges(face as int);
    }
    while slot < 4
        invariant
            slot <= 4,
            face < 6,
            crossing_count == crossing_slots_upto(crossing@, face as int, slot as int).len(),
            forall|k: int|
                0 <= k < crossing_count ==> crossings@[k] as int == crossing_slots_upto(
                    crossing@,
                    face as int,
                    slot as int,
                )[k],
        decreases 4 - slot,
    {
        proof {
            lemma_slots(crossing@, face as int, slot as int);
        }
        let e = face_edge(face, slot);
        if crossing[e as usize] {
            crossings[crossing_count] = slot as u8;
            crossing_count += 1;
        }
        slot += 1;
    }
    proof {
        lemma_slots(crossing@, face as int, 4);
    }
    (crossings, crossing_count)
}

/// What joining one face guarantees about the parent links before (`p`)
/// and after (`q`).
pub open spec fn face_joined(
    crossing: Seq<bool>,
    sp: Seq<bool>,
    face: int,
    p: Seq<u8>,
    q: Seq<u8>,
) -> bool {
    &&& sound_forest(crossing, sp, q)
    &&& forall|i: int|
        0 <= i < face_links(crossing, sp, face).len() ==> root(
            q,
            (#[trigger] face_links(crossing, sp, face)[i]).0,
        ) == root(q, face_links(crossing, sp, face)[i].1)
    &&& forall|x: int, y: int|
        0 <= x < 12 && 0 <= y < 12 && crossing[x] && crossing[y] && root(p, x) == root(p, y)
            ==> #[trigger] root(q, x) == #[trigger] root(q, y)
}

proof fn lemma_face_links_shape(crossing: Seq<bool>, sp: Seq<bool>, f: int)
    requires
        0 <= f < 6,
        crossing.len() == 12,
    ensures
        crossing_slots(crossing, f).len() == 2 ==> face_links(crossing, sp, f) == seq![
            (
                face_edges(f)[crossing_slots(crossing, f)[0]],
                face_edges(f)[crossing_slots(crossing, f)[1]],
            ),
        ],
        crossing_slots(crossing, f).len() == 4 && sp[f] ==> face_links(crossing, sp, f) == seq![
            (face_edges(f)[0], face_edges(f)[1]),
            (face_edges(f)[2], face_edges(f)[3]),
        ],
        crossing_slots(crossing, f).len() == 4 && !sp[f] ==> face_links(crossing, sp, f) == seq![
            (face_edges(f)[0], face_edges(f)[3]),
            (face_edges(f)[1], face_edges(f)[2]),
        ],
        crossing_slots(crossing, f).len() != 2 && crossing_slots(crossing, f).len() != 4
            ==> face_links(crossing, sp, f).len() == 0,
{
}

proof fn lemma_link_is_linked(crossing: Seq<bool>, sp: Seq<bool>, f: int, k: int)
    requires
        0 <= f < 6,
        0 <= k < face_links(crossing, sp, f).len(),
    ensures
        linked(crossing, sp, face_links(crossing, sp, f)[k].0, face_links(crossing, sp, f)[k].1),
{
    let l = face_links(crossing, sp, f)[k];
    assert(face_links(crossing, sp, f)[k] == (l.0, l.1));
}

/// Joins the two crossings of a face that has exactly two.
fn join_face_pair(
    parents: &mut [u8; 12],
    crossing: &[bool; 12],
    saddle_positive: &[bool; 6],
    face: usize,
    first: u8,
    second: u8,
)
    requires
        face < 6,
        first < 4,
        second < 4,
        sound_forest(crossing@, saddle_positive@, old(parents)@),
        crossing_slots(crossing@, face as int).len() == 2,
        crossing_slots(crossing@, face as int)[0] == first as int,
        crossing_slots(crossing@, face as int)[1] == second as int,
    ensures
        face_joined(crossing@, saddle_positive@, face as int, old(parents)@, final(parents)@),
{
    proof {
        lemma_face_links_shape(crossing@, saddle_positive@, face as int);
        lemma_link_is_linked(crossing@, saddle_positive@, face as int, 0);
    }
    let a = face_edge(face, first as usize);
    let b = face_edge(face, second as usize);
    join_pair(parents, crossing, saddle_positive, a, b);
}

/// The two links of a checkerboard face are the pairs chosen by its saddle
/// decision, and each is a link.
proof fn lemma_checkerboard_links(
    crossing: Seq<bool>,
    sp: Seq<bool>,
    f: int,
    a: int,
    b: int,
    c: int,
    d: int,
)
    requires
        0 <= f < 6,
        crossing.len() == 12,
        crossing_slots(crossing, f).len() == 4,
        a == face_edges(f)[0],
        b == face_edges(f)[if sp[f] { 1int } else { 3int }],
        c == face_edges(f)[if sp[f] { 2int } else { 1int }],
        d == face_edges(f)[if sp[f] { 3int } else { 2int }],
    ensures
        face_links(crossing, sp, f) == seq![(a, b), (c, d)],
        linked(crossing, sp, a, b),
        linked(crossing, sp, c, d),
{
    lemma_face_links_shape(crossing, sp, f);
    lemma_link_is_linked(crossing, sp, f, 0);
    lemma_link_is_linked(crossing, sp, f, 1);
}

/// Two successive joins of the two links of a face join the face.
proof fn lemma_two_joins(
    crossing: Seq<bool>,
    sp: Seq<bool>,
    f: int,
    before: Seq<u8>,
    middle: Seq<u8>,
    after: Seq<u8>,
    a: int,
    b: int,
    c: int,
    d: int,
)
    requires
        crossing.len() == 12,
        face_links(crossing, sp, f) == seq![(a, b), (c, d)],
        linked(crossing, sp, a, b),
        sound_forest(crossing, sp, after),
        root(middle, a) == root(middle, b),
        root(after, c) == root(after, d),
        forall|x: int, y: int|
            0 <= x < 12 && 0 <= y < 12 && crossing[x] && crossing[y] && root(before, x) == root(
                before,
                y,
            ) ==> #[trigger] root(middle, x) == #[trigger] root(middle, y),
        forall|x: int, y: int|
            0 <= x < 12 && 0 <= y < 12 && crossing[x] && crossing[y] && root(middle, x) == root(
                middle,
                y,
            ) ==> #[trigger] root(after, x) == #[trigger] root(after, y),
    ensures
        face_joined(crossing, sp, f, before, after),
{
    lemma_linked_cross(crossing, sp, a, b);
    assert(root(after, a) == root(after, b));
    assert forall|x: int, y: int|
        0 <= x < 12 && 0 <= y < 12 && crossing[x] && crossing[y] && root(before, x) == root(before, y)
            implies #[trigger] root(after, x) == #[trigger] root(after, y) by {
        assert(root(middle, x) == root(middle, y));
    }
}

/// Joins the four crossings of a checkerboard face by its saddle decision.
fn join_face_checkerboard(
    parents: &mut [u8; 12],
    crossing: &[bool; 12],
    saddle_positive: &[bool; 6],
    face: usize,
)
    requires
        face < 6,
        sound_forest(crossing@, saddle_positive@, old(parents)@),
        crossing_slots(crossing@, face as int).len() == 4,
    ensures
        face_joined(crossing@, saddle_positive@, face as int, old(parents)@, final(parents)@),
{
    let ghost cr = crossing@;
    let ghost sp = saddle_positive@;
    let (s1, s2, s3) = if saddle_positive[face] {
        (1usize, 2usize, 3usize)
    } else {
        (3usize, 1usize, 2usize)
    };
    let a = face_edge(face, 0);
    let b = face_edge(face, s1);
    let c = face_edge(face, s2);
    let d = face_edge(face, s3);
    proof {
        lemma_checkerboard_links(cr, sp, face as int, a as int, b as int, c as int, d as int);
    }
    let ghost before = parents@;
    join_pair(parents, crossing, saddle_positive, a, b);
    let ghost middle = parents@;
    join_pair(parents, crossing, saddle_positive, c, d);
    proof {
        lemma_two_joins(
            cr,
            sp,
            face as int,
            before,
            middle,
            parents@,
            a as int,
            b as int,
            c as int,
            d as int,
        );
    }
}

/// Joins the crossing edges of one face; returns whether it is a
/// checkerboard face.
fn join_face(
    parents: &mut [u8; 12],
    crossing: &[bool; 12],
    saddle_positive: &[bool; 6],
    face: usize,
) -> (ambiguous: bool)
    requires
        face < 6,
        sound_forest(crossing@, saddle_positive@, old(parents)@),
    ensures
        face_joined(crossing@, saddle_positive@, face as int, old(parents)@, final(parents)@),
        ambiguous == (crossing_slots(crossing@, face as int).len() == 4),
{
    let (crossings, crossing_count) = face_crossings(crossing, face);
    proof {
        lemma_slots(crossing@, face as int, 4);
    }
    if crossing_count == 2 {
        join_face_pair(parents, crossing, saddle_positive, face, crossings[0], crossings[1]);
        false
    } else if crossing_count == 4 {
        join_face_checkerboard(parents, crossing, saddle_positive, face);
        true
    } else {
        proof {
            lemma_face_links_shape(crossing@, saddle_positive@, face as int);
        }
        false
    }
}

/// The state of component numbering after the edges below `n`: `rc` maps
/// roots to component numbers, `ec` edges to components, `comps` holds the
/// components' edge masks.
pub open spec fn numbering(
    cr: Seq<bool>,
    p: Seq<u8>,
    rc: Seq<Option<u8>>,
    ec: Seq<Option<u8>>,
    comps: Seq<CellComponent>,
    n: int,
) -> bool {
    &&& rc.len() == 12
    &&& ec.len() == 12
    &&& comps.len() <= n
    &&& forall|e: int|
        0 <= e < 12 ==> #[trigger] ec[e] == (if e < n && cr[e] {
            rc[root(p, e)]
        } else {
            None
        })
    &&& forall|e: int| 0 <= e < n && cr[e] ==> #[trigger] rc[root(p, e)] is Some
    &&& forall|r: int| 0 <= r < 12 && #[trigger] rc[r] is Some ==> rc[r]->0 < comps.len()
    &&& forall|r1: int, r2: int|
        0 <= r1 < 12 && 0 <= r2 < 12 && #[trigger] rc[r1] is Some && #[trigger] rc[r2] == rc[r1]
            ==> r1 == r2
    &&& forall|c: int| 0 <= c < comps.len() ==> #[trigger] used_before(ec, c, n)
    &&& forall|c: int| 0 <= c < comps.len() ==> #[trigger] comps[c].edge_mask < 4096u16
    &&& forall|c: int, e: int|
        0 <= c < comps.len() && 0 <= e < 12 ==> (bit16(#[trigger] comps[c].edge_mask, e)
            <==> #[trigger] ec[e] == Some(c as u8))
    &&& forall|e: int, d: int|
        0 <= e < 12 && #[trigger] ec[e] is Some && 0 <= d < ec[e]->0 ==> #[trigger] used_before(
            ec,
            d,
            e,
        )
}

/// Every crossing edge has a root among the twelve edges.
pub open spec fn roots_in_range(cr: Seq<bool>, p: Seq<u8>) -> bool {
    forall|e: int| 0 <= e < 12 && cr[e] ==> 0 <= #[trigger] root(p, e) < 12
}

proof fn lemma_numbering_skip(
    cr: Seq<bool>,
    p: Seq<u8>,
    rc: Seq<Option<u8>>,
    ec: Seq<Option<u8>>,
    comps: Seq<CellComponent>,
    n: int,
)
    requires
        0 <= n < 12,
        !cr[n],
        numbering(cr, p, rc, ec, comps, n),
    ensures
        numbering(cr, p, rc, ec, comps, n + 1),
{
    assert forall|c: int| 0 <= c < comps.len() implies #[trigger] used_before(ec, c, n + 1) by {
        assert(used_before(ec, c, n));
        let w = choose|e: int| 0 <= e < n && #[trigger] ec[e] == Some(c as u8);
        assert(ec[w] == Some(c as u8));
    }
}

proof fn lemma_numbering_step(
    cr: Seq<bool>,
    p: Seq<u8>,
    rc: Seq<Option<u8>>,
    ec: Seq<Option<u8>>,
    comps: Seq<CellComponent>,
    rc2: Seq<Option<u8>>,
    ec2: Seq<Option<u8>>,
    comps2: Seq<CellComponent>,
    n: int,
    c: int,
)
    requires
        0 <= n < 12,
        cr[n],
        roots_in_range(cr, p),
        numbering(cr, p, rc, ec, comps, n),
        rc[root(p, n)] is Some ==> c == rc[root(p, n)]->0 && rc2 == rc && comps2 == comps.update(
            c,
            CellComponent { edge_mask: comps[c].edge_mask | (1u16 << (n as u16)) },
        ),
        rc[root(p, n)] is None ==> c == comps.len() && rc2 == rc.update(root(p, n), Some(c as u8))
            && comps2 == comps.push(CellComponent { edge_mask: 1u16 << (n as u16) }),
        ec2 == ec.update(n, Some(c as u8)),
    ensures
        numbering(cr, p, rc2, ec2, comps2, n + 1),
        c < 12,
{
    let r = root(p, n);
    let fresh = rc[r] is None;
    assert(0 <= r < 12);
    assert(c < comps2.len());
    assert(ec[n] is None);
    assert forall|e: int|
        0 <= e < 12 implies #[trigger] ec2[e] == (if e < n + 1 && cr[e] {
        rc2[root(p, e)]
    } else {
        None
    }) by {
        if e < n && cr[e] {
            assert(rc[root(p, e)] is Some);
            if fresh {
                assert(root(p, e) != r);
            }
        }
    }
    assert forall|e: int| 0 <= e < n + 1 && cr[e] implies #[trigger] rc2[root(p, e)] is Some by {
        if e < n {
            assert(rc[root(p, e)] is Some);
        }
    }
    assert forall|r1: int, r2: int|
        0 <= r1 < 12 && 0 <= r2 < 12 && #[trigger] rc2[r1] is Some && #[trigger] rc2[r2] == rc2[r1]
            implies r1 == r2 by {
        if fresh {
            if r1 != r && r2 != r {
                assert(rc[r1] == rc2[r1] && rc[r2] == rc2[r2]);
            } else if r1 == r && r2 != r {
                assert(rc[r2] == rc2[r2]);
            } else if r2 == r && r1 != r {
                assert(rc[r1] == rc2[r1]);
            }
        }
    }
    lemma_mask_small(if fresh { 0u16 } else { comps[c].edge_mask }, n);
    assert forall|d: int| 0 <= d < comps2.len() implies #[trigger] comps2[d].edge_mask < 4096u16 by {
        if d != c {
            assert(comps2[d] == comps[d]);
        }
    }
    assert forall|d: int| 0 <= d < comps2.len() implies #[trigger] used_before(ec2, d, n + 1) by {
        if d == c {
            assert(ec2[n] == Some(d as u8));
        } else {
            assert(used_before(ec, d, n));
            let w = choose|e: int| 0 <= e < n && #[trigger] ec[e] == Some(d as u8);
            assert(ec2[w] == Some(d as u8));
        }
    }
    assert forall|d: int, e: int|
        0 <= d < comps2.len() && 0 <= e < 12 implies (bit16(#[trigger] comps2[d].edge_mask, e)
        <==> #[trigger] ec2[e] == Some(d as u8)) by {
        if d == c {
            if fresh {
                lemma_bit16_single(n, e);
                assert(bit16(comps2[d].edge_mask, e) <==> e == n);
                if e != n && ec[e] is Some {
                    assert(e < n && cr[e]);
                    assert(rc[root(p, e)]->0 < comps.len());
                }
            } else {
                assert(comps2[d].edge_mask == comps[c].edge_mask | (1u16 << (n as u16)));
                lemma_bit16_or(comps[c].edge_mask, n, e);
                assert(bit16(comps2[d].edge_mask, e) <==> (bit16(comps[c].edge_mask, e) || e == n));
                assert(bit16(comps[d].edge_mask, e) <==> ec[e] == Some(d as u8));
            }
        } else {
            assert(comps2[d] == comps[d]);
            assert(bit16(comps[d].edge_mask, e) <==> ec[e] == Some(d as u8));
            assert((c as u8) != (d as u8));
        }
    }
    assert forall|e: int, dd: int|
        0 <= e < 12 && #[trigger] ec2[e] is Some && 0 <= dd < ec2[e]->0 implies #[trigger] used_before(
        ec2,
        dd,
        e,
    ) by {
        if e == n {
            if fresh {
                assert(used_before(ec, dd, n));
                let w = choose|w: int| 0 <= w < n && #[trigger] ec[w] == Some(dd as u8);
                assert(ec2[w] == Some(dd as u8));
            } else {
                assert(used_before(ec, c, n));
                let w0 = choose|w: int| 0 <= w < n && #[trigger] ec[w] == Some(c as u8);
                assert(used_before(ec, dd, w0));
                let w = choose|w: int| 0 <= w < w0 && #[trigger] ec[w] == Some(dd as u8);
                assert(ec2[w] == Some(dd as u8));
            }
        } else {
            assert(ec2[e] == ec[e]);
            assert(used_before(ec, dd, e));
            let w = choose|w: int| 0 <= w < e && #[trigger] ec[w] == Some(dd as u8);
            assert(ec2[w] == Some(dd as u8));
        }
    }
}

/// Numbers the roots of the crossing edges in order of their smallest edge.
fn number_components(
    parents: &[u8; 12],
    crossing: &[bool; 12],
    saddle_positive: &[bool; 6],
) -> (r: (Vec<CellComponent>, [Option<u8>; 12]))
    requires
        sound_forest(crossing@, saddle_positive@, parents@),
    ensures
        r.0@.len() <= 12,
        forall|e: int| 0 <= e < 12 ==> (#[trigger] r.1@[e] is Some) == crossing@[e],
        forall|a: int, b: int|
            0 <= a < 12 && 0 <= b < 12 && crossing@[a] && crossing@[b] ==> ((#[trigger] r.1@[a]
                == #[trigger] r.1@[b]) <==> root(parents@, a) == root(parents@, b)),
        forall|e: int|
            0 <= e < 12 && #[trigger] r.1@[e] is Some ==> r.1@[e]->0 < r.0@.len(),
        forall|c: int| 0 <= c < r.0@.len() ==> #[trigger] used_before(r.1@, c, 12),
        forall|c: int| 0 <= c < r.0@.len() ==> #[trigger] r.0@[c].edge_mask < 4096u16,
        forall|c: int, e: int|
            0 <= c < r.0@.len() && 0 <= e < 12 ==> (bit16(#[trigger] r.0@[c].edge_mask, e)
                <==> #[trigger] r.1@[e] == Some(c as u8)),
        forall|e: int, d: int|
            0 <= e < 12 && #[trigger] r.1@[e] is Some && 0 <= d < r.1@[e]->0
                ==> #[trigger] used_before(r.1@, d, e),
{
    let ghost cr = crossing@;
    let ghost p = parents@;
    let mut root_components: [Option<u8>; 12] = [None; 12];
    let mut components: Vec<CellComponent> = Vec::new();
    let mut edge_components: [Option<u8>; 12] = [None; 12];
    proof {
        assert forall|e: int| 0 <= e < 12 && cr[e] implies 0 <= #[trigger] root(p, e) < 12 by {
            lemma_root(p, e);
        }
    }
    let mut edge: usize = 0;
    while edge < 12
        invariant
            edge <= 12,
            cr == crossing@,
            p == parents@,
            forest(p),
            forall|e: int| 0 <= e < 12 ==> (#[trigger] p[e] != 255u8) == cr[e],
            roots_in_range(cr, p),
            numbering(cr, p, root_components@, edge_components@, components@, edge as int),
        decreases 12 - edge,
    {
        if !crossing[edge] {
            proof {
                lemma_numbering_skip(cr, p, root_components@, edge_components@, components@, edge as int);
            }
            edge += 1;
            continue;
        }
        let ghost rc = root_components@;
        let ghost ec = edge_components@;
        let ghost comps = components@;
        let r = find(parents, edge as u8);
        let component: u8 = match root_components[r as usize] {
            Some(c) => {
                let old_mask = components[c as usize].edge_mask;
                components.set(c as usize, CellComponent { edge_mask: old_mask | (1u16 << (edge as u16)) });
                c
            },
            None => {
                proof {
                    assert(components@.len() <= edge);
                }
                let c = components.len() as u8;
                root_components[r as usize] = Some(c);
                components.push(CellComponent { edge_mask: 1u16 << (edge as u16) });
                c
            },
        };
        edge_components[edge] = Some(component);
        proof {
            lemma_numbering_step(
                cr,
                p,
                rc,
                ec,
                comps,
                root_components@,
                edge_components@,
                components@,
                edge as int,
                component as int,
            );
        }
        edge += 1;
    }
    proof {
        assert forall|a: int, b: int|
            0 <= a < 12 && 0 <= b < 12 && cr[a] && cr[b] implies ((#[trigger] edge_components@[a]
                == #[trigger] edge_components@[b]) <==> root(p, a) == root(p, b)) by {
            assert(root_components@[root(p, a)] is Some);
            assert(root_components@[root(p, b)] is Some);
        }
        assert forall|c: int| 0 <= c < components@.len() implies #[trigger] used_before(
            edge_components@,
            c,
            12,
        ) by {
            assert(used_before(edge_components@, c, edge as int));
        }
    }
    (components, edge_components)
}

/// Classifies the crossing edges of one cube cell into face-connected
/// surface components.
///
/// `crossing[e]` says whether edge `e` crosses the surface;
/// `saddle_positive[f]` says whether face `f`'s bilinear saddle determinant
/// is positive and finite, which decides how a checkerboard face joins its
/// four crossings.
pub fn classify_crossings(crossing: [bool; 12], saddle_positive: [bool; 6]) -> (t: CellTopology)
    ensures
        t.classifies(crossing@, saddle_positive@),
{
    let ghost cr = crossing@;
    let ghost sp = saddle_positive@;
    let mut parents = singleton_forest(&crossing, &saddle_positive);
    let mut ambiguous_face_mask: u8 = 0;
    proof {
        lemma_no_bits8();
    }
    let mut face: usize = 0;
    while face < 6
        invariant
            face <= 6,
            cr == crossing@,
            sp == saddle_positive@,
            sound_forest(cr, sp, parents@),
            forall|f: int, i: int|
                0 <= f < face && 0 <= i < face_links(cr, sp, f).len() ==> root(
                    parents@,
                    (#[trigger] face_links(cr, sp, f)[i]).0,
                ) == root(parents@, face_links(cr, sp, f)[i].1),
            forall|f: int|
                0 <= f < 6 ==> (bit8(ambiguous_face_mask, f) <==> f < face && crossing_slots(
                    cr,
                    f,
                ).len() == 4),
            ambiguous_face_mask < 64u8,
        decreases 6 - face,
    {
        let ghost before = parents@;
        let ambiguous = join_face(&mut parents, &crossing, &saddle_positive, face);
        proof {
            assert forall|f: int, i: int|
                0 <= f < face + 1 && 0 <= i < face_links(cr, sp, f).len() implies root(
                parents@,
                (#[trigger] face_links(cr, sp, f)[i]).0,
            ) == root(parents@, face_links(cr, sp, f)[i].1) by {
                if f < face {
                    lemma_links_cross(cr, sp, f);
                    let l = face_links(cr, sp, f)[i];
                    assert(root(before, l.0) == root(before, l.1));
                    assert(root(parents@, l.0) == root(parents@, l.1));
                }
            }
        }
        if ambiguous {
            proof {
                lemma_bit8_set(ambiguous_face_mask, face as u8);
            }
            ambiguous_face_mask = ambiguous_face_mask | (1u8 << (face as u8));
        }
        face += 1;
    }
    let ghost p = parents@;
    proof {
        assert forall|a: int, b: int|
            0 <= a < 12 && 0 <= b < 12 && cr[a] && cr[b] && connected(cr, sp, a, b) implies root(
            p,
            a,
        ) == root(p, b) by {
            reveal(connected);
            let path = choose|path: Seq<int>|
                #[trigger] is_join_path(cr, sp, path) && path[0] == a && path.last() == b;
            lemma_path_same_root(cr, sp, p, path, path.len() as int);
        }
        assert forall|a: int, b: int|
            0 <= a < 12 && 0 <= b < 12 && cr[a] && cr[b] && root(p, a) == root(p, b) implies connected(
            cr,
            sp,
            a,
            b,
        ) by {
            assert(connected(cr, sp, a, root(p, a)));
            assert(connected(cr, sp, b, root(p, b)));
            lemma_connected_sym(cr, sp, b, root(p, b));
            lemma_connected_trans(cr, sp, a, root(p, a), b);
        }
    }
    let (components, edge_components) = number_components(&parents, &crossing, &saddle_positive);
    let t = CellTopology { components, edge_components, ambiguous_face_mask };
    proof {
        assert forall|c: int| 0 <= c < t.count() implies #[trigger] t.mask(c) != 0u16 by {
            assert(used_before(edge_components@, c, 12));
            let w = choose|e: int| 0 <= e < 12 && #[trigger] edge_components@[e] == Some(c as u8);
            lemma_bit16_nonzero(t.mask(c), w);
        }
        assert forall|e: int, d: int|
            0 <= e < 12 && #[trigger] t.edge_component(e) is Some && 0 <= d < t.edge_component(
                e,
            )->0 implies #[trigger] t.numbered_before(d, e) by {
            assert(used_before(edge_components@, d, e));
            let w = choose|w: int| 0 <= w < e && #[trigger] edge_components@[w] == Some(d as u8);
            assert(t.edge_component(w) == Some(d as u8));
        }
        assert forall|c: int| 0 <= c < t.count() implies #[trigger] t.numbered_before(c, 12) by {
            assert(used_before(edge_components@, c, 12));
            let w = choose|e: int| 0 <= e < 12 && #[trigger] edge_components@[e] == Some(c as u8);
            assert(t.edge_component(w) == Some(c as u8));
        }
    }
    t
}

/// Where one corner sample lies relative to the surface.
#[derive(Copy, Clone, Debug, Eq, PartialEq, Structural)]
pub enum CornerSign {
    /// The sample is at or below the iso level.
    Inside,
    /// The sample is above the iso level.
    Outside,
    /// The sample is not a number; no edge at this corner crosses.
    Undefined,
}

/// Two corner samples lie on opposite sides of the surface.
pub open spec fn signs_differ(a: CornerSign, b: CornerSign) -> bool {
    (a is Inside && b is Outside) || (a is Outside && b is Inside)
}

/// The crossing edges of a cell with corner signs `signs`.
pub open spec fn edge_crossings(signs: Seq<CornerSign>) -> Seq<bool> {
    Seq::new(
        12,
        |e: int| signs_differ(signs[edge_corners(e).0], signs[edge_corners(e).1]),
    )
}

/// The corner signs of the negated field: inside and outside swap.
pub open spec fn complement(signs: Seq<CornerSign>) -> Seq<CornerSign> {
    signs.map_values(
        |s: CornerSign|
            match s {
                CornerSign::Inside => CornerSign::Outside,
                CornerSign::Outside => CornerSign::Inside,
                CornerSign::Undefined => CornerSign::Undefined,
            },
    )
}

/// Classifies one cube cell from the signs of its eight corners.
///
/// An edge crosses when its corners lie on opposite sides; an edge at an
/// undefined corner never crosses. `saddle_positive[f]` says whether face
/// `f`'s bilinear saddle determinant `f00 * f11 - f10 * f01` (over the
/// face's canonical corner cycle) is positive and finite; it decides how a
/// checkerboard face joins its four crossings.
pub fn classify_cell(signs: [CornerSign; 8], saddle_positive: [bool; 6]) -> (t: CellTopology)
    ensures
        t.classifies(edge_crossings(signs@), saddle_positive@),
{
    let mut crossing = [false; 12];
    let mut e: usize = 0;
    while e < 12
        invariant
            e <= 12,
            forall|j: int| 0 <= j < e ==> crossing@[j] == edge_crossings(signs@)[j],
        decreases 12 - e,
    {
        let (a, b) = cube_edge(e);
        let differ = match (signs[a], signs[b]) {
            (CornerSign::Inside, CornerSign::Outside) => true,
            (CornerSign::Outside, CornerSign::Inside) => true,
            _ => false,
        };
        crossing[e] = differ;
        e += 1;
    }
    proof {
        assert(crossing@ =~= edge_crossings(signs@));
    }
    classify_crossings(crossing, saddle_positive)
}

/// The number of `true` entries among the first `n` of `s`.
pub open spec fn count_true(s: Seq<bool>, n: int) -> nat
    decreases n,
{
    if n <= 0 {
        0
    } else {
        count_true(s, n - 1) + if s[n - 1] {
            1nat
        } else {
            0nat
        }
    }
}

/// Some intersection in `hits` lies on edge `e`.
pub open spec fn has_hit_on<I>(hits: Seq<CellHermiteIntersection<I>>, e: int) -> bool {
    exists|k: int| 0 <= k < hits.len() && #[trigger] hits[k].edge_index == e
}

/// The inside corners, one bit per corner.
pub fn corner_sign_mask(signs: [CornerSign; 8]) -> (r: u8)
    ensures
        forall|i: int| 0 <= i < 8 ==> (bit8(r, i) <==> signs@[i] is Inside),
{
    let mut mask: u8 = 0;
    let mut corner: usize = 0;
    proof {
        lemma_empty_bits8();
    }
    while corner < 8
        invariant
            corner <= 8,
            forall|i: int| 0 <= i < 8 ==> (bit8(mask, i) <==> i < corner && signs@[i] is Inside),
        decreases 8 - corner,
    {
        if matches!(signs[corner], CornerSign::Inside) {
            proof {
                lemma_bit8_or(mask, corner as u8);
            }
            mask = mask | (1u8 << (corner as u8));
        }
        corner += 1;
    }
    mask
}

/// The crossing edges, one bit per cube edge.
pub fn crossing_edge_mask(signs: [CornerSign; 8]) -> (r: u16)
    ensures
        forall|e: int| 0 <= e < 12 ==> (bit16(r, e) <==> edge_crossings(signs@)[e]),
        r < 4096u16,
{
    let mut mask: u16 = 0;
    let mut e: usize = 0;
    proof {
        lemma_empty_bits16();
    }
    while e < 12
        invariant
            e <= 12,
            mask < 4096u16,
            forall|j: int| 0 <= j < 12 ==> (bit16(mask, j) <==> j < e && edge_crossings(signs@)[j]),
        decreases 12 - e,
    {
        let (a, b) = cube_edge(e);
        let differ = match (signs[a], signs[b]) {
            (CornerSign::Inside, CornerSign::Outside) => true,
            (CornerSign::Outside, CornerSign::Inside) => true,
            _ => false,
        };
        let ghost before = mask;
        if differ {
            proof {
                lemma_mask_small(mask, e as int);
            }
            mask = mask | (1u16 << (e as u16));
        }
        proof {
            assert forall|j: int| 0 <= j < 12 implies (bit16(mask, j) <==> j < e + 1
                && edge_crossings(signs@)[j]) by {
                assert(bit16(before, j) <==> j < e && edge_crossings(signs@)[j]);
                if differ {
                    lemma_bit16_or(before, e as int, j);
                }
            }
        }
        e += 1;
    }
    mask
}

/// The number of crossing edges.
pub fn crossing_edge_count(signs: [CornerSign; 8]) -> (r: usize)
    ensures
        r == count_true(edge_crossings(signs@), 12),
{
    let mut count: usize = 0;
    let mut e: usize = 0;
    while e < 12
        invariant
            e <= 12,
            count == count_true(edge_crossings(signs@), e as int),
            count <= e,
        decreases 12 - e,
    {
        let (a, b) = cube_edge(e);
        let differ = match (signs[a], signs[b]) {
            (CornerSign::Inside, CornerSign::Outside) => true,
            (CornerSign::Outside, CornerSign::Inside) => true,
            _ => false,
        };
        if differ {
            count += 1;
        }
        e += 1;
    }
    count
}

/// The cube edges that carry an intersection of `hermite`, one bit per
/// edge; intersections on indices `12` and above are ignored.
pub fn hermite_edge_mask<I>(hermite: &CellHermiteData<I>) -> (r: u16)
    ensures
        forall|e: int| 0 <= e < 12 ==> (bit16(r, e) <==> has_hit_on(hermite.intersections@, e)),
        r < 4096u16,
{
    let hits = &hermite.intersections;
    let mut mask: u16 = 0;
    let mut k: usize = 0;
    proof {
        lemma_empty_bits16();
    }
    while k < hits.len()
        invariant
            k <= hits@.len(),
            hits@ == hermite.intersections@,
            mask < 4096u16,
            forall|j: int| 0 <= j < 12 ==> (bit16(mask, j) <==> has_hit_on(hits@.take(k as int), j)),
        decreases hits@.len() - k,
    {
        let edge = hits[k].edge_index;
        let ghost prefix = hits@.take(k as int + 1);
        proof {
            assert(prefix.drop_last() =~= hits@.take(k as int));
            assert forall|j: int| 0 <= j < 12 implies (has_hit_on(prefix, j) <==> (has_hit_on(
                hits@.take(k as int),
                j,
            ) || edge == j)) by {
                if has_hit_on(prefix, j) {
                    let w = choose|w: int| 0 <= w < prefix.len() && #[trigger] prefix[w].edge_index == j;
                    if w < k {
                        assert(hits@.take(k as int)[w].edge_index == j);
                    }
                }
                if has_hit_on(hits@.take(k as int), j) {
                    let w = choose|w: int|
                        0 <= w < k && #[trigger] hits@.take(k as int)[w].edge_index == j;
                    assert(prefix[w].edge_index == j);
                }
                if edge == j {
                    assert(prefix[k as int].edge_index == j);
                }
            }
        }
        let ghost before = mask;
        if edge < 12 {
            proof {
                lemma_mask_small(mask, edge as int);
            }
            mask = mask | (1u16 << (edge as u16));
        }
        proof {
            assert forall|j: int| 0 <= j < 12 implies (bit16(mask, j) <==> has_hit_on(prefix, j)) by {
                assert(bit16(before, j) <==> has_hit_on(hits@.take(k as int), j));
                assert(has_hit_on(prefix, j) <==> (has_hit_on(hits@.take(k as int), j) || edge == j));
                if edge < 12 {
                    lemma_bit16_or(before, edge as int, j);
                }
            }
        }
        k += 1;
        assert(prefix == hits@.take(k as int));
    }
    proof {
        assert(hits@.take(hits@.len() as int) =~= hits@);
    }
    mask
}

proof fn lemma_empty_bits16()
    ensures
        forall|j: int| 0 <= j < 12 ==> !bit16(0u16, j),
{
    assert forall|j: int| 0 <= j < 12 implies !bit16(0u16, j) by {
        let jj = j as u16;
        assert((0u16 >> jj) & 1u16 != 1u16) by (bit_vector);
    }
}

proof fn lemma_empty_bits8()
    ensures
        forall|j: int| 0 <= j < 8 ==> !bit8(0u8, j),
{
    assert forall|j: int| 0 <= j < 8 implies !bit8(0u8, j) by {
        let jj = j as u8;
        assert((0u8 >> jj) & 1u8 != 1u8) by (bit_vector);
    }
}

proof fn lemma_bit8_or(m: u8, f: u8)
    requires
        f < 8,
    ensures
        forall|j: int| 0 <= j < 8 ==> (#[trigger] bit8(m | (1u8 << f), j) <==> (bit8(m, j) || j == f as int)),
{
    assert forall|j: int| 0 <= j < 8 implies (#[trigger] bit8(m | (1u8 << f), j) <==> (bit8(m, j) || j
        == f as int)) by {
        let jj = j as u8;
        assert(((m | (1u8 << f)) >> jj) & 1u8 == 1u8 <==> ((m >> jj) & 1u8 == 1u8 || jj == f))
            by (bit_vector)
            requires
                f < 8,
                jj < 8,
        ;
    }
}

/// The axis normal to face `f`: faces `0, 1` are normal to z, `2, 3` to y
/// and `4, 5` to x.
pub open spec fn face_axis(f: int) -> int {
    if f < 2 {
        2
    } else if f < 4 {
        1
    } else {
        0
    }
}

/// Opposite faces on one axis list their corners in the same in-plane
/// cycle: slot `i` of the high face is slot `i` of the low face moved one
/// step along the face's axis. So the high face of one cell and the low
/// face of the next cell along that axis see the same four samples in the
/// same slots, and make the same saddle decision.
pub proof fn lemma_opposite_faces_share_their_cycle(low: int, slot: int)
    requires
        low == 0 || low == 2 || low == 4,
        0 <= slot < 4,
    ensures
        face_axis(low) == face_axis(low + 1),
        face_corners(low + 1)[slot] == face_corners(low)[slot] + pow2_small(face_axis(low)),
        face_corners(low)[slot] / pow2_small(face_axis(low)) % 2 == 0,
{
}

/// The faces and their edges are the cube's: face `f` lists the corners of
/// its plane as the cycle `base`, `base + 2^u`, `base + 2^u + 2^v`,
/// `base + 2^v`, where `u < v` are the two axes in the face and `base` is
/// the face's side on its own axis; and edge slot `i` of the face is the
/// cube edge joining corner slots `i` and `(i + 1) % 4`.
pub proof fn lemma_face_edges_join_their_corners(f: int, i: int)
    requires
        0 <= f < 6,
        0 <= i < 4,
    ensures
        ({
            let n = face_axis(f);
            let u = if n == 0 { 1int } else { 0int };
            let v = if n == 2 { 1int } else { 2int };
            let base = (f % 2) * pow2_small(n);
            &&& face_corners(f).len() == 4
            &&& face_corners(f)[0] == base
            &&& face_corners(f)[1] == base + pow2_small(u)
            &&& face_corners(f)[2] == base + pow2_small(u) + pow2_small(v)
            &&& face_corners(f)[3] == base + pow2_small(v)
        }),
        0 <= face_edges(f)[i] < 12,
        ({
            let (a, b) = edge_corners(face_edges(f)[i]);
            let c0 = face_corners(f)[i];
            let c1 = face_corners(f)[(i + 1) % 4];
            (a == c0 && b == c1) || (a == c1 && b == c0)
        }),
{
}

/// `2^k` for the three axis bits of a corner index.
pub open spec fn pow2_small(k: int) -> int {
    if k == 0 {
        1
    } else if k == 1 {
        2
    } else {
        4
    }
}

/// Negating the field keeps every edge's crossing: a corner pair differs
/// in sign exactly when its complement does.
pub proof fn lemma_complement_keeps_crossings(signs: Seq<CornerSign>)
    requires
        signs.len() == 8,
    ensures
        edge_crossings(complement(signs)) == edge_crossings(signs),
{
    assert(edge_crossings(complement(signs)) =~= edge_crossings(signs)) by {
        assert forall|e: int| 0 <= e < 12 implies #[trigger] edge_crossings(complement(signs))[e]
            == edge_crossings(signs)[e] by {
            let (a, b) = edge_corners(e);
            assert(0 <= a < 8 && 0 <= b < 8);
        }
    }
}

/// Components agree on the edges below `n` for any two classifications of
/// one cell.
proof fn lemma_unique_below(
    t1: CellTopology,
    t2: CellTopology,
    crossing: Seq<bool>,
    saddle_positive: Seq<bool>,
    n: int,
)
    requires
        t1.classifies(crossing, saddle_positive),
        t2.classifies(crossing, saddle_positive),
        0 <= n <= 12,
    ensures
        forall|e: int| 0 <= e < n ==> #[trigger] t1.edge_component(e) == t2.edge_component(e),
    decreases n,
{
    if n > 0 {
        lemma_unique_below(t1, t2, crossing, saddle_positive, n - 1);
        let e = n - 1;
        if crossing[e] {
            assert(t1.edge_component(e) is Some && t2.edge_component(e) is Some);
            let c1 = t1.edge_component(e)->0 as int;
            let c2 = t2.edge_component(e)->0 as int;
            if c1 < c2 {
                assert(t2.numbered_before(c1, e));
                let w = choose|w: int| 0 <= w < e && #[trigger] t2.edge_component(w) == Some(c1 as u8);
                assert(t1.edge_component(w) == Some(c1 as u8));
                assert(crossing[w]);
                assert(connected(crossing, saddle_positive, w, e));
                assert(t2.edge_component(w) == t2.edge_component(e));
                assert(false);
            } else if c2 < c1 {
                assert(t1.numbered_before(c2, e));
                let w = choose|w: int| 0 <= w < e && #[trigger] t1.edge_component(w) == Some(c2 as u8);
                assert(t2.edge_component(w) == Some(c2 as u8));
                assert(crossing[w]);
                assert(connected(crossing, saddle_positive, w, e));
                assert(t1.edge_component(w) == t1.edge_component(e));
                assert(false);
            }
        }
    }
}

/// Equal 12-bit masks: masks below `4096` with the same low twelve bits.
proof fn lemma_mask_eq(m1: u16, m2: u16)
    requires
        m1 < 4096u16,
        m2 < 4096u16,
        forall|j: int| 0 <= j < 12 ==> #[trigger] bit16(m1, j) == bit16(m2, j),
    ensures
        m1 == m2,
{
    assert(bit16(m1, 0) == bit16(m2, 0) && bit16(m1, 1) == bit16(m2, 1) && bit16(m1, 2) == bit16(m2, 2)
        && bit16(m1, 3) == bit16(m2, 3) && bit16(m1, 4) == bit16(m2, 4) && bit16(m1, 5) == bit16(m2, 5)
        && bit16(m1, 6) == bit16(m2, 6) && bit16(m1, 7) == bit16(m2, 7) && bit16(m1, 8) == bit16(m2, 8)
        && bit16(m1, 9) == bit16(m2, 9) && bit16(m1, 10) == bit16(m2, 10) && bit16(m1, 11) == bit16(
        m2,
        11,
    ));
    assert(m1 == m2) by (bit_vector)
        requires
            m1 < 4096u16,
            m2 < 4096u16,
            ((m1 >> 0u16) & 1u16 == 1u16) == ((m2 >> 0u16) & 1u16 == 1u16),
            ((m1 >> 1u16) & 1u16 == 1u16) == ((m2 >> 1u16) & 1u16 == 1u16),
            ((m1 >> 2u16) & 1u16 == 1u16) == ((m2 >> 2u16) & 1u16 == 1u16),
            ((m1 >> 3u16) & 1u16 == 1u16) == ((m2 >> 3u16) & 1u16 == 1u16),
            ((m1 >> 4u16) & 1u16 == 1u16) == ((m2 >> 4u16) & 1u16 == 1u16),
            ((m1 >> 5u16) & 1u16 == 1u16) == ((m2 >> 5u16) & 1u16 == 1u16),
            ((m1 >> 6u16) & 1u16 == 1u16) == ((m2 >> 6u16) & 1u16 == 1u16),
            ((m1 >> 7u16) & 1u16 == 1u16) == ((m2 >> 7u16) & 1u16 == 1u16),
            ((m1 >> 8u16) & 1u16 == 1u16) == ((m2 >> 8u16) & 1u16 == 1u16),
            ((m1 >> 9u16) & 1u16 == 1u16) == ((m2 >> 9u16) & 1u16 == 1u16),
            ((m1 >> 10u16) & 1u16 == 1u16) == ((m2 >> 10u16) & 1u16 == 1u16),
            ((m1 >> 11u16) & 1u16 == 1u16) == ((m2 >> 11u16) & 1u16 == 1u16),
    ;
}

/// Equal 6-bit face masks: masks below `64` with the same low six bits.
proof fn lemma_face_mask_eq(m1: u8, m2: u8)
    requires
        m1 < 64u8,
        m2 < 64u8,
        forall|j: int| 0 <= j < 6 ==> #[trigger] bit8(m1, j) == bit8(m2, j),
    ensures
        m1 == m2,
{
    assert(bit8(m1, 0) == bit8(m2, 0) && bit8(m1, 1) == bit8(m2, 1) && bit8(m1, 2) == bit8(m2, 2)
        && bit8(m1, 3) == bit8(m2, 3) && bit8(m1, 4) == bit8(m2, 4) && bit8(m1, 5) == bit8(m2, 5));
    assert(m1 == m2) by (bit_vector)
        requires
            m1 < 64u8,
            m2 < 64u8,
            ((m1 >> 0u8) & 1u8 == 1u8) == ((m2 >> 0u8) & 1u8 == 1u8),
            ((m1 >> 1u8) & 1u8 == 1u8) == ((m2 >> 1u8) & 1u8 == 1u8),
            ((m1 >> 2u8) & 1u8 == 1u8) == ((m2 >> 2u8) & 1u8 == 1u8),
            ((m1 >> 3u8) & 1u8 == 1u8) == ((m2 >> 3u8) & 1u8 == 1u8),
            ((m1 >> 4u8) & 1u8 == 1u8) == ((m2 >> 4u8) & 1u8 == 1u8),
            ((m1 >> 5u8) & 1u8 == 1u8) == ((m2 >> 5u8) & 1u8 == 1u8),
    ;
}

/// A cell's classification is determined by its crossings and saddle
/// signs: any two classifications of the same cell give every edge the
/// same component, have the same components with the same edge masks, and
/// the same ambiguous faces.
pub proof fn lemma_classification_is_unique(
    t1: CellTopology,
    t2: CellTopology,
    crossing: Seq<bool>,
    saddle_positive: Seq<bool>,
)
    requires
        t1.classifies(crossing, saddle_positive),
        t2.classifies(crossing, saddle_positive),
    ensures
        forall|e: int| 0 <= e < 12 ==> #[trigger] t1.edge_component(e) == t2.edge_component(e),
        t1.count() == t2.count(),
        forall|c: int| 0 <= c < t1.count() ==> #[trigger] t1.mask(c) == t2.mask(c),
        t1.ambiguous_faces() == t2.ambiguous_faces(),
{
    lemma_unique_below(t1, t2, crossing, saddle_positive, 12);
    if t1.count() < t2.count() {
        let c = t1.count();
        assert(t2.numbered_before(c, 12));
        let w = choose|w: int| 0 <= w < 12 && #[trigger] t2.edge_component(w) == Some(c as u8);
        assert(t1.edge_component(w) == Some(c as u8));
        assert(false);
    }
    if t2.count() < t1.count() {
        let c = t2.count();
        assert(t1.numbered_before(c, 12));
        let w = choose|w: int| 0 <= w < 12 && #[trigger] t1.edge_component(w) == Some(c as u8);
        assert(t2.edge_component(w) == Some(c as u8));
        assert(false);
    }
    assert forall|c: int| 0 <= c < t1.count() implies #[trigger] t1.mask(c) == t2.mask(c) by {
        assert forall|j: int| 0 <= j < 12 implies #[trigger] bit16(t1.mask(c), j) == bit16(
            t2.mask(c),
            j,
        ) by {
            assert(bit16(t1.mask(c), j) <==> t1.edge_component(j) == Some(c as u8));
            assert(bit16(t2.mask(c), j) <==> t2.edge_component(j) == Some(c as u8));
        }
        lemma_mask_eq(t1.mask(c), t2.mask(c));
    }
    assert forall|f: int| 0 <= f < 6 implies #[trigger] bit8(t1.ambiguous_faces(), f) == bit8(
        t2.ambiguous_faces(),
        f,
    ) by {}
    lemma_face_mask_eq(t1.ambiguous_faces(), t2.ambiguous_faces());
}

/// Negating the field (with the same saddle decisions, as the negated
/// field's determinant is unchanged) classifies a cell alike: the two
/// classifications agree on every edge, component mask and ambiguous face.
pub proof fn lemma_complement_preserves_connectivity(
    signs: Seq<CornerSign>,
    saddle_positive: Seq<bool>,
    t1: CellTopology,
    t2: CellTopology,
)
    requires
        signs.len() == 8,
        t1.classifies(edge_crossings(signs), saddle_positive),
        t2.classifies(edge_crossings(complement(signs)), saddle_positive),
    ensures
        forall|e: int| 0 <= e < 12 ==> #[trigger] t1.edge_component(e) == t2.edge_component(e),
        t1.count() == t2.count(),
        forall|c: int| 0 <= c < t1.count() ==> #[trigger] t1.mask(c) == t2.mask(c),
        t1.ambiguous_faces() == t2.ambiguous_faces(),
{
    lemma_complement_keeps_crossings(signs);
    lemma_classification_is_unique(t1, t2, edge_crossings(signs), saddle_positive);
}

/// Some entry below `n` of `ec` is component `c`.
pub open spec fn used_before(ec: Seq<Option<u8>>, c: int, n: int) -> bool {
    exists|e: int| 0 <= e < n && #[trigger] ec[e] == Some(c as u8)
}

proof fn lemma_bit16_or(m: u16, n: int, e: int)
    requires
        0 <= n < 12,
        0 <= e < 12,
    ensures
        bit16(m | (1u16 << (n as u16)), e) <==> (bit16(m, e) || e == n),
{
    let nn = n as u16;
    let ee = e as u16;
    assert(((m | (1u16 << nn)) >> ee) & 1u16 == 1u16 <==> ((m >> ee) & 1u16 == 1u16 || ee == nn))
        by (bit_vector)
        requires
            nn < 12,
            ee < 12,
    ;
}

proof fn lemma_mask_small(m: u16, n: int)
    requires
        m < 4096u16,
        0 <= n < 12,
    ensures
        (m | (1u16 << (n as u16))) < 4096u16,
        (1u16 << (n as u16)) < 4096u16,
{
    let nn = n as u16;
    assert((m | (1u16 << nn)) < 4096u16 && (1u16 << nn) < 4096u16) by (bit_vector)
        requires
            m < 4096u16,
            nn < 12,
    ;
}

proof fn lemma_bit16_single(n: int, e: int)
    requires
        0 <= n < 12,
        0 <= e < 12,
    ensures
        bit16(1u16 << (n as u16), e) <==> e == n,
{
    let nn = n as u16;
    let ee = e as u16;
    assert(((1u16 << nn) >> ee) & 1u16 == 1u16 <==> ee == nn) by (bit_vector)
        requires
            nn < 12,
            ee < 12,
    ;
}

proof fn lemma_bit8_set(m: u8, f: u8)
    requires
        f < 6,
    ensures
        forall|j: int| 0 <= j < 6 ==> (#[trigger] bit8(m | (1u8 << f), j) <==> (bit8(m, j) || j == f as int)),
        m < 64u8 ==> (m | (1u8 << f)) < 64u8,
{
    assert(m < 64u8 ==> (m | (1u8 << f)) < 64u8) by (bit_vector)
        requires
            f < 6,
    ;
    assert forall|j: int| 0 <= j < 6 implies (#[trigger] bit8(m | (1u8 << f), j) <==> (bit8(m, j) || j
        == f as int)) by {
        let jj = j as u8;
        assert(((m | (1u8 << f)) >> jj) & 1u8 == 1u8 <==> ((m >> jj) & 1u8 == 1u8 || jj == f))
            by (bit_vector)
            requires
                f < 6,
                jj < 6,
        ;
    }
}

proof fn lemma_no_bits8()
    ensures
        forall|j: int| 0 <= j < 6 ==> !bit8(0u8, j),
{
    assert forall|j: int| 0 <= j < 6 implies !bit8(0u8, j) by {
        let jj = j as u8;
        assert((0u8 >> jj) & 1u8 != 1u8) by (bit_vector);
    }
}

proof fn lemma_bit16_nonzero(m: u16, e: int)
    requires
        0 <= e < 12,
        bit16(m, e),
    ensures
        m != 0u16,
{
    let ee = e as u16;
    assert((m >> ee) & 1u16 == 1u16 ==> m != 0u16) by (bit_vector);
}

} // verus!
