//! Two-to-one balance of adaptive octree leaves across shared faces.
//!
//! Every leaf owns one side of each of its six face patches. Looking from a
//! leaf's face, the neighbor across it is the leaf owning the other side of
//! the smallest aligned patch, searching spans `span, 2 span, ...` up to the
//! root, that has such an owner. A neighbor more than one level coarser
//! than the leaf must be refined.
use vstd::prelude::*;
use vstd::arithmetic::div_mod::{
    lemma_add_mod_noop, lemma_fundamental_div_mod, lemma_mod_bound, lemma_mod_multiples_basic,
    lemma_sub_mod_noop,
};
use vstd::arithmetic::power2::{lemma2_to64, lemma_pow2_adds, lemma_pow2_pos, lemma_pow2_strictly_increases, pow2};

use crate::grid::{align_down, coord, face_patch, is_dyadic, other_axes, CellKey, CornerKey};
use crate::locator::{aligned, levels_of, table_bound};
use crate::sorted::{insert_sorted, key_lt, strictly_sorted, SortKey};

verus! {

/// A face patch as a tuple: normal axis, plane, first and second in-plane
/// coordinates, span.
pub type PatchTuple = (u8, u32, u32, u32, u32);

/// A hash table from face patches to the leaves owning their two sides.
#[verifier::external_body]
pub struct FaceTable {
    map: hashbrown::HashMap<PatchTuple, [Option<u32>; 2]>,
}

/// What a [`FaceTable`] holds.
pub uninterp spec fn face_entries(table: FaceTable) -> Map<PatchTuple, [Option<u32>; 2]>;

/// The empty patch-to-owners index.
pub open spec fn no_faces() -> Map<PatchTuple, [Option<u32>; 2]> {
    Map::empty()
}

/// An empty table, from `hashbrown::HashMap::new` (which does not
/// allocate).
#[verifier::external_body]
fn face_table_new() -> (t: FaceTable)
    ensures
        face_entries(t) == no_faces(),
{
    FaceTable { map: hashbrown::HashMap::new() }
}

/// `hashbrown::HashMap::insert`: the patch now maps to the owners, every
/// other patch keeps its entry. Growing the table panics only on capacity
/// overflow, which the entry bound rules out.
#[verifier::external_body]
fn face_table_insert(t: &mut FaceTable, patch: PatchTuple, owners: [Option<u32>; 2])
    requires
        face_entries(*old(t)).dom().finite(),
        face_entries(*old(t)).len() < table_bound(),
    ensures
        face_entries(*final(t)) == face_entries(*old(t)).insert(patch, owners),
{
    t.map.insert(patch, owners);
}

/// `hashbrown::HashMap::get`: the owners of `patch`, if it has an entry.
#[verifier::external_body]
fn face_table_get(t: &FaceTable, patch: PatchTuple) -> (r: Option<[Option<u32>; 2]>)
    ensures
        r == (if face_entries(*t).contains_key(patch) {
            Some(face_entries(*t)[patch])
        } else {
            None
        }),
{
    t.map.get(&patch).copied()
}

/// The face patch of `cell` normal to `axis` on side `side` (`0` low, `1`
/// high).
pub open spec fn leaf_patch(cell: CellKey, axis: int, side: int) -> PatchTuple {
    (
        axis as u8,
        (coord(cell.origin, axis) + side * cell.span) as u32,
        coord(cell.origin, other_axes(axis).0) as u32,
        coord(cell.origin, other_axes(axis).1) as u32,
        cell.span,
    )
}

/// Leaf `j`'s face on `axis` and `side` is patch `q`, of which it owns side
/// `s` (the side facing into the leaf).
pub open spec fn owns_face(
    leaves: Seq<(u32, CellKey)>,
    j: int,
    axis: int,
    side: int,
    q: PatchTuple,
    s: int,
) -> bool {
    &&& 0 <= j < leaves.len()
    &&& 0 <= axis < 3
    &&& 0 <= side < 2
    &&& s == 1 - side
    &&& leaf_patch(leaves[j].1, axis, side) == q
}

/// The leaf owning side `s` of patch `q`, if any.
pub open spec fn owner(leaves: Seq<(u32, CellKey)>, q: PatchTuple, s: int) -> Option<int> {
    if exists|j: int, axis: int, side: int| #[trigger] owns_face(leaves, j, axis, side, q, s) {
        Some(
            (choose|j: int, axis: int, side: int| #[trigger] owns_face(leaves, j, axis, side, q, s)).0,
        )
    } else {
        None
    }
}

/// Patch `p` widened to span `span`, its in-plane corner rounded down.
pub open spec fn widened(p: PatchTuple, span: int) -> PatchTuple {
    (p.0, p.1, aligned(p.2 as int, span) as u32, aligned(p.3 as int, span) as u32, span as u32)
}

/// The leaf across patch `p` on side `s`: the owner of side `s` of the
/// first of `p` widened to spans `2^k`, `2^(k+1)`, ... up to `2^levels`
/// that has one.
pub open spec fn across(
    leaves: Seq<(u32, CellKey)>,
    p: PatchTuple,
    s: int,
    k: nat,
    levels: nat,
) -> Option<int>
    decreases levels - k,
{
    let o = owner(leaves, widened(p, pow2(k) as int), s);
    if o is Some {
        o
    } else if k >= levels {
        None
    } else {
        across(leaves, p, s, k + 1, levels)
    }
}

/// The exponent of a dyadic span.
pub open spec fn span_log(span: u32) -> nat {
    choose|k: nat| k < 32 && pow2(k) == span
}

/// Leaf `n` is across face (`axis`, `side`) of leaf `j`, and more than one
/// level coarser than it.
pub open spec fn refines_from(
    leaves: Seq<(u32, CellKey)>,
    resolution: u32,
    j: int,
    axis: int,
    side: int,
    n: int,
) -> bool {
    &&& 0 <= j < leaves.len()
    &&& 0 <= axis < 3
    &&& 0 <= side < 2
    &&& across(
        leaves,
        leaf_patch(leaves[j].1, axis, side),
        side,
        span_log(leaves[j].1.span),
        levels_of(resolution),
    ) == Some(n)
    &&& leaves[j].1.depth > leaves[n].1.depth + 1
}

/// Leaf `n` is across a face of some leaf more than one level finer.
pub open spec fn needs_refinement(leaves: Seq<(u32, CellKey)>, resolution: u32, n: int) -> bool {
    exists|j: int, axis: int, side: int| #[trigger] refines_from(leaves, resolution, j, axis, side, n)
}

/// The leaves form a set of distinct dyadic cells of a dyadic grid, each
/// representable, few enough to index every face.
pub open spec fn valid_leaves(leaves: Seq<(u32, CellKey)>, resolution: u32) -> bool {
    &&& is_dyadic(resolution)
    &&& leaves.len() * 6 < table_bound()
    &&& forall|i: int|
        0 <= i < leaves.len() ==> (#[trigger] leaves[i]).1.fits() && is_dyadic(leaves[i].1.span)
            && leaves[i].1.depth < 255
    &&& forall|i: int, j: int|
        0 <= i < leaves.len() && 0 <= j < leaves.len() && i != j ==> !(
        #[trigger] leaves[i].1.origin == #[trigger] leaves[j].1.origin && leaves[i].1.span
            == leaves[j].1.span)
}

/// The sort key of a refinement entry: its cell key, then its id.
pub open spec fn refine_key(entry: (CellKey, u32)) -> SortKey {
    (
        entry.0.origin.x,
        entry.0.origin.y,
        entry.0.origin.z,
        entry.0.span,
        entry.0.depth as u32,
        entry.1,
    )
}

/// One side of one patch has at most one owner among valid leaves.
proof fn lemma_owner_unique(
    leaves: Seq<(u32, CellKey)>,
    resolution: u32,
    j1: int,
    a1: int,
    s1: int,
    j2: int,
    a2: int,
    s2: int,
    q: PatchTuple,
    s: int,
)
    requires
        valid_leaves(leaves, resolution),
        owns_face(leaves, j1, a1, s1, q, s),
        owns_face(leaves, j2, a2, s2, q, s),
    ensures
        j1 == j2,
        a1 == a2,
        s1 == s2,
{
    let c1 = leaves[j1].1;
    let c2 = leaves[j2].1;
    assert(c1.fits() && c2.fits());
    assert(a1 == a2);
    assert(s1 == s2);
    assert(c1.span == c2.span);
    let p1 = coord(c1.origin, a1) + s1 * c1.span;
    let p2 = coord(c2.origin, a1) + s1 * c2.span;
    assert(0 <= p1 <= u32::MAX && 0 <= p2 <= u32::MAX) by {
        if s1 == 1 {
            assert(p1 == coord(c1.origin, a1) + c1.span);
        }
    }
    assert(p1 as u32 == p2 as u32);
    assert(p1 == p2);
    assert(coord(c1.origin, a1) == coord(c2.origin, a1));
    assert(c1.origin == c2.origin);
}

/// Face (`axis`, `side`) of leaf `j` comes before face number `c` of leaf
/// `i`, faces being numbered `2 * axis + side` within a leaf.
pub open spec fn face_done(i: int, c: int, j: int, axis: int, side: int) -> bool {
    j < i || (j == i && 2 * axis + side < c)
}

/// The owner of side `s` of `q` among the faces before face `c` of leaf
/// `i`.
pub open spec fn owner_before(leaves: Seq<(u32, CellKey)>, i: int, c: int, q: PatchTuple, s: int) -> Option<int> {
    if exists|j: int, axis: int, side: int|
        face_done(i, c, j, axis, side) && #[trigger] owns_face(leaves, j, axis, side, q, s) {
        Some(
            (choose|j: int, axis: int, side: int|
                face_done(i, c, j, axis, side) && #[trigger] owns_face(leaves, j, axis, side, q, s)).0,
        )
    } else {
        None
    }
}

/// The owner of side `s` of `q` that a table records.
pub open spec fn recorded(entries: Map<PatchTuple, [Option<u32>; 2]>, q: PatchTuple, s: int) -> Option<int> {
    if entries.contains_key(q) && entries[q][s] is Some {
        Some(entries[q][s]->0 as int)
    } else {
        None
    }
}

proof fn lemma_owner_before_is(
    leaves: Seq<(u32, CellKey)>,
    resolution: u32,
    i: int,
    c: int,
    j: int,
    axis: int,
    side: int,
    q: PatchTuple,
    s: int,
)
    requires
        valid_leaves(leaves, resolution),
        face_done(i, c, j, axis, side),
        owns_face(leaves, j, axis, side, q, s),
    ensures
        owner_before(leaves, i, c, q, s) == Some(j),
{
    let w = choose|j: int, axis: int, side: int|
        face_done(i, c, j, axis, side) && #[trigger] owns_face(leaves, j, axis, side, q, s);
    lemma_owner_unique(leaves, resolution, w.0, w.1, w.2, j, axis, side, q, s);
}

proof fn lemma_owner_is(
    leaves: Seq<(u32, CellKey)>,
    resolution: u32,
    j: int,
    axis: int,
    side: int,
    q: PatchTuple,
    s: int,
)
    requires
        valid_leaves(leaves, resolution),
        owns_face(leaves, j, axis, side, q, s),
    ensures
        owner(leaves, q, s) == Some(j),
{
    let w = choose|j: int, axis: int, side: int| #[trigger] owns_face(leaves, j, axis, side, q, s);
    lemma_owner_unique(leaves, resolution, w.0, w.1, w.2, j, axis, side, q, s);
}

/// Recording face `c` of leaf `i` extends the recorded owners by that face.
proof fn lemma_record_face(
    leaves: Seq<(u32, CellKey)>,
    resolution: u32,
    i: int,
    c: int,
    before: Map<PatchTuple, [Option<u32>; 2]>,
    after: Map<PatchTuple, [Option<u32>; 2]>,
    q0: PatchTuple,
    os: int,
)
    requires
        valid_leaves(leaves, resolution),
        0 <= i < leaves.len(),
        0 <= c < 6,
        q0 == leaf_patch(leaves[i].1, c / 2, c % 2),
        os == 1 - c % 2,
        forall|q: PatchTuple, s: int|
            0 <= s < 2 ==> #[trigger] recorded(before, q, s) == owner_before(leaves, i, c, q, s),
        after.contains_key(q0),
        after[q0][os] == Some(i as u32),
        i <= u32::MAX,
        recorded(before, q0, 1 - os) == recorded(after, q0, 1 - os),
        forall|q: PatchTuple| q != q0 ==> #[trigger] after.contains_key(q) == before.contains_key(q)
            && (before.contains_key(q) ==> after[q] == before[q]),
    ensures
        forall|q: PatchTuple, s: int|
            0 <= s < 2 ==> #[trigger] recorded(after, q, s) == owner_before(leaves, i, c + 1, q, s),
{
    let axis = c / 2;
    let side = c % 2;
    assert(owns_face(leaves, i, axis, side, q0, os));
    assert forall|q: PatchTuple, s: int|
        0 <= s < 2 implies #[trigger] recorded(after, q, s) == owner_before(leaves, i, c + 1, q, s) by {
        if q == q0 && s == os {
            lemma_owner_before_is(leaves, resolution, i, c + 1, i, axis, side, q, s);
        } else {
            if q == q0 {
                assert(s == 1 - os);
            } else {
                assert(after.contains_key(q) == before.contains_key(q));
            }
            assert(recorded(after, q, s) == recorded(before, q, s));
            if exists|j: int, a: int, sd: int|
                face_done(i, c + 1, j, a, sd) && #[trigger] owns_face(leaves, j, a, sd, q, s) {
                let w = choose|j: int, a: int, sd: int|
                    face_done(i, c + 1, j, a, sd) && #[trigger] owns_face(leaves, j, a, sd, q, s);
                if w.0 == i && 2 * w.1 + w.2 == c {
                    assert(w.1 == axis && w.2 == side);
                    assert(false);
                }
                lemma_owner_before_is(leaves, resolution, i, c, w.0, w.1, w.2, q, s);
                lemma_owner_before_is(leaves, resolution, i, c + 1, w.0, w.1, w.2, q, s);
            } else {
                assert forall|j: int, a: int, sd: int|
                    face_done(i, c, j, a, sd) implies !#[trigger] owns_face(leaves, j, a, sd, q, s) by {
                    assert(face_done(i, c + 1, j, a, sd));
                }
            }
        }
    }
}

/// The owners of both sides of every face patch of `leaves`.
fn face_owners(leaves: &[(u32, CellKey)], resolution: u32) -> (t: FaceTable)
    requires
        valid_leaves(leaves@, resolution),
    ensures
        forall|q: PatchTuple, s: int|
            0 <= s < 2 ==> #[trigger] recorded(face_entries(t), q, s) == owner(leaves@, q, s),
{
    let ghost ls = leaves@;
    let mut t = face_table_new();
    let mut i: usize = 0;
    while i < leaves.len()
        invariant
            i <= ls.len(),
            ls == leaves@,
            valid_leaves(ls, resolution),
            face_entries(t).dom().finite(),
            face_entries(t).len() <= 6 * i,
            forall|q: PatchTuple, s: int|
                0 <= s < 2 ==> #[trigger] recorded(face_entries(t), q, s) == owner_before(
                    ls,
                    i as int,
                    0,
                    q,
                    s,
                ),
        decreases ls.len() - i,
    {
        let cell = leaves[i].1;
        proof {
            assert(cell.fits());
        }
        let mut c: usize = 0;
        while c < 6
            invariant
                i < ls.len(),
                c <= 6,
                ls == leaves@,
                cell == ls[i as int].1,
                cell.fits(),
                valid_leaves(ls, resolution),
                face_entries(t).dom().finite(),
                face_entries(t).len() <= 6 * i + c,
                forall|q: PatchTuple, s: int|
                    0 <= s < 2 ==> #[trigger] recorded(face_entries(t), q, s) == owner_before(
                        ls,
                        i as int,
                        c as int,
                        q,
                        s,
                    ),
            decreases 6 - c,
        {
            let axis = (c / 2) as u8;
            let side = (c % 2) as u8;
            let (patch, os) = face_patch(cell, axis, side);
            let q: PatchTuple = (patch.axis, patch.plane, patch.u, patch.v, patch.span);
            proof {
                assert(q == leaf_patch(cell, c as int / 2, c as int % 2));
            }
            let ghost before = face_entries(t);
            let mut owners: [Option<u32>; 2] = match face_table_get(&t, q) {
                Some(o) => o,
                None => [None, None],
            };
            let ghost other = owners[1 - os];
            owners[os] = Some(i as u32);
            proof {
                assert(owners[1 - os as int] == other);
                assert(6 * ls.len() < table_bound());
            }
            face_table_insert(&mut t, q, owners);
            proof {
                lemma_record_face(ls, resolution, i as int, c as int, before, face_entries(t), q, os as int);
            }
            c += 1;
        }
        proof {
            assert forall|q: PatchTuple, s: int|
                0 <= s < 2 implies #[trigger] recorded(face_entries(t), q, s) == owner_before(
                ls,
                i + 1,
                0,
                q,
                s,
            ) by {
                if exists|j: int, a: int, sd: int|
                    face_done(i as int, 6, j, a, sd) && #[trigger] owns_face(ls, j, a, sd, q, s) {
                    let w = choose|j: int, a: int, sd: int|
                        face_done(i as int, 6, j, a, sd) && #[trigger] owns_face(ls, j, a, sd, q, s);
                    lemma_owner_before_is(ls, resolution, i as int, 6, w.0, w.1, w.2, q, s);
                    lemma_owner_before_is(ls, resolution, i + 1, 0, w.0, w.1, w.2, q, s);
                } else {
                    assert forall|j: int, a: int, sd: int|
                        face_done(i + 1, 0, j, a, sd) implies !#[trigger] owns_face(ls, j, a, sd, q, s) by {
                        if owns_face(ls, j, a, sd, q, s) {
                            assert(face_done(i as int, 6, j, a, sd));
                        }
                    }
                }
            }
        }
        i += 1;
    }
    proof {
        assert forall|q: PatchTuple, s: int|
            0 <= s < 2 implies #[trigger] recorded(face_entries(t), q, s) == owner(ls, q, s) by {
            if exists|j: int, a: int, sd: int| #[trigger] owns_face(ls, j, a, sd, q, s) {
                let w = choose|j: int, a: int, sd: int| #[trigger] owns_face(ls, j, a, sd, q, s);
                lemma_owner_is(ls, resolution, w.0, w.1, w.2, q, s);
                lemma_owner_before_is(ls, resolution, ls.len() as int, 0, w.0, w.1, w.2, q, s);
            } else {
                assert forall|j: int, a: int, sd: int|
                    face_done(ls.len() as int, 0, j, a, sd) implies !#[trigger] owns_face(ls, j, a, sd, q, s) by {}
            }
        }
    }
    t
}

/// The leaf across side `s` of `patch`, searching spans from the patch's
/// own span up to `resolution`; `None` when no widened patch has an owner
/// on that side.
fn neighbor_across(
    table: &FaceTable,
    leaves: &[(u32, CellKey)],
    resolution: u32,
    patch: PatchTuple,
    s: usize,
) -> (r: Option<u32>)
    requires
        valid_leaves(leaves@, resolution),
        is_dyadic(patch.4),
        s < 2,
        forall|q: PatchTuple, s: int|
            0 <= s < 2 ==> #[trigger] recorded(face_entries(*table), q, s) == owner(leaves@, q, s),
    ensures
        match r {
            Some(n) => across(leaves@, patch, s as int, span_log(patch.4), levels_of(resolution))
                == Some(n as int),
            None => across(leaves@, patch, s as int, span_log(patch.4), levels_of(resolution)) is None,
        },
{
    let ghost levels = levels_of(resolution);
    let ghost k0 = span_log(patch.4);
    let mut span = patch.4;
    let ghost mut k: nat = k0;
    proof {
        lemma2_to64();
    }
    loop
        invariant
            s < 2,
            k0 == span_log(patch.4),
            levels == levels_of(resolution),
            levels < 32,
            resolution == pow2(levels),
            k < 32,
            span == pow2(k),
            k0 <= k,
            k > k0 ==> k <= levels,
            valid_leaves(leaves@, resolution),
            forall|q: PatchTuple, s: int|
                0 <= s < 2 ==> #[trigger] recorded(face_entries(*table), q, s) == owner(leaves@, q, s),
            across(leaves@, patch, s as int, k0, levels) == across(leaves@, patch, s as int, k, levels),
        decreases 32 - k,
    {
        proof {
            lemma_pow2_pos(k);
            assert(is_dyadic(span));
        }
        let q: PatchTuple = (patch.0, patch.1, align_down(patch.2, span), align_down(patch.3, span), span);
        proof {
            assert(q == widened(patch, pow2(k) as int));
        }
        let found = match face_table_get(table, q) {
            Some(owners) => owners[s],
            None => None,
        };
        proof {
            assert(recorded(face_entries(*table), q, s as int) == owner(leaves@, q, s as int));
            assert(across(leaves@, patch, s as int, k, levels) == if owner(leaves@, q, s as int) is Some {
                owner(leaves@, q, s as int)
            } else if k >= levels {
                None
            } else {
                across(leaves@, patch, s as int, k + 1, levels)
            });
        }
        if let Some(n) = found {
            proof {
                assert(face_entries(*table).contains_key(q));
                assert(face_entries(*table)[q][s as int] == Some(n));
                assert(owner(leaves@, q, s as int) == Some(n as int));
            }
            return Some(n);
        }
        proof {
            if face_entries(*table).contains_key(q) {
                assert(face_entries(*table)[q][s as int] is None);
            }
            assert(owner(leaves@, q, s as int) is None);
        }
        if span >= resolution {
            proof {
                if k < levels {
                    lemma_pow2_strictly_increases(k, levels);
                }
                assert(k >= levels);
            }
            return None;
        }
        proof {
            if k >= levels {
                if k > levels {
                    lemma_pow2_strictly_increases(levels, k);
                }
                assert(false);
            }
            lemma_pow2_adds(k, 1);
            lemma2_to64();
            if k + 1 < 32 {
                lemma_pow2_strictly_increases(k + 1, 32);
            }
        }
        span = span * 2;
        proof {
            k = k + 1;
        }
    }
}

/// `x` is the refinement key of a leaf across some face before face `c` of
/// leaf `i` that is more than one level coarser than that face's leaf.
pub open spec fn refined_before(
    leaves: Seq<(u32, CellKey)>,
    resolution: u32,
    i: int,
    c: int,
    x: SortKey,
) -> bool {
    exists|n: int, j: int, axis: int, side: int|
        face_done(i, c, j, axis, side) && #[trigger] refines_from(leaves, resolution, j, axis, side, n)
            && x == refine_key((leaves[n].1, leaves[n].0))
}

/// The leaves across a face of a leaf more than one level finer, which must
/// be refined for the leaves to be balanced two to one; each once, ordered
/// by cell key, then id.
pub fn balance_candidates(leaves: &[(u32, CellKey)], resolution: u32) -> (r: Vec<(CellKey, u32)>)
    requires
        valid_leaves(leaves@, resolution),
    ensures
        forall|a: int, b: int|
            0 <= a < b < r@.len() ==> key_lt(
                refine_key(#[trigger] r@[a]),
                refine_key(#[trigger] r@[b]),
            ),
        forall|e: (CellKey, u32)| #[trigger]
            r@.contains(e) <==> exists|n: int|
                0 <= n < leaves@.len() && e == (leaves@[n].1, leaves@[n].0) && #[trigger] needs_refinement(
                    leaves@,
                    resolution,
                    n,
                ),
{
    let ghost ls = leaves@;
    let table = face_owners(leaves, resolution);
    let mut keys: Vec<SortKey> = Vec::new();
    let mut i: usize = 0;
    while i < leaves.len()
        invariant
            i <= ls.len(),
            ls == leaves@,
            valid_leaves(ls, resolution),
            forall|q: PatchTuple, s: int|
                0 <= s < 2 ==> #[trigger] recorded(face_entries(table), q, s) == owner(ls, q, s),
            strictly_sorted(keys@),
            forall|x: SortKey| #[trigger]
                keys@.contains(x) <==> refined_before(ls, resolution, i as int, 0, x),
        decreases ls.len() - i,
    {
        let cell = leaves[i].1;
        proof {
            assert(cell.fits() && is_dyadic(cell.span) && cell.depth < 255);
        }
        let mut c: usize = 0;
        while c < 6
            invariant
                i < ls.len(),
                c <= 6,
                ls == leaves@,
                cell == ls[i as int].1,
                cell.fits(),
                is_dyadic(cell.span),
                valid_leaves(ls, resolution),
                forall|q: PatchTuple, s: int|
                    0 <= s < 2 ==> #[trigger] recorded(face_entries(table), q, s) == owner(ls, q, s),
                strictly_sorted(keys@),
                forall|x: SortKey| #[trigger]
                    keys@.contains(x) <==> refined_before(ls, resolution, i as int, c as int, x),
            decreases 6 - c,
        {
            let axis = (c / 2) as u8;
            let side = (c % 2) as u8;
            let (patch, _) = face_patch(cell, axis, side);
            let p: PatchTuple = (patch.axis, patch.plane, patch.u, patch.v, patch.span);
            proof {
                assert(p == leaf_patch(cell, c as int / 2, c as int % 2));
            }
            let found = neighbor_across(&table, leaves, resolution, p, side as usize);
            let ghost before = keys@;
            let mut added: Option<SortKey> = None;
            if let Some(n) = found {
                let ghost nn = n as int;
                proof {
                    lemma_across_in_range(ls, resolution, p, side as int, span_log(p.4), levels_of(resolution));
                    assert(0 <= nn < ls.len());
                }
                let (id, neighbor) = leaves[n as usize];
                if cell.depth > neighbor.depth + 1 {
                    let x: SortKey = (
                        neighbor.origin.x,
                        neighbor.origin.y,
                        neighbor.origin.z,
                        neighbor.span,
                        neighbor.depth as u32,
                        id,
                    );
                    insert_sorted(&mut keys, x);
                    added = Some(x);
                }
            }
            proof {
                assert forall|x: SortKey| #[trigger]
                    keys@.contains(x) <==> refined_before(ls, resolution, i as int, c + 1, x) by {
                    if refined_before(ls, resolution, i as int, c + 1, x) {
                        let w = choose|n: int, j: int, a: int, sd: int|
                            face_done(i as int, c + 1, j, a, sd) && #[trigger] refines_from(
                                ls,
                                resolution,
                                j,
                                a,
                                sd,
                                n,
                            ) && x == refine_key((ls[n].1, ls[n].0));
                        if w.1 == i && 2 * w.2 + w.3 == c {
                            assert(w.2 == c as int / 2 && w.3 == c as int % 2);
                            assert(found == Some(w.0 as u32));
                        } else {
                            assert(refined_before(ls, resolution, i as int, c as int, x));
                        }
                    }
                    if refined_before(ls, resolution, i as int, c as int, x) {
                        let w = choose|n: int, j: int, a: int, sd: int|
                            face_done(i as int, c as int, j, a, sd) && #[trigger] refines_from(
                                ls,
                                resolution,
                                j,
                                a,
                                sd,
                                n,
                            ) && x == refine_key((ls[n].1, ls[n].0));
                        assert(face_done(i as int, c + 1, w.1, w.2, w.3));
                    }
                    if added == Some(x) {
                        let n = found->0 as int;
                        assert(refines_from(ls, resolution, i as int, c as int / 2, c as int % 2, n));
                        assert(face_done(i as int, c + 1, i as int, c as int / 2, c as int % 2));
                    }
                }
            }
            c += 1;
        }
        proof {
            assert forall|x: SortKey| #[trigger]
                keys@.contains(x) <==> refined_before(ls, resolution, i + 1, 0, x) by {
                if refined_before(ls, resolution, i + 1, 0, x) {
                    let w = choose|n: int, j: int, a: int, sd: int|
                        face_done(i + 1, 0, j, a, sd) && #[trigger] refines_from(ls, resolution, j, a, sd, n)
                            && x == refine_key((ls[n].1, ls[n].0));
                    assert(face_done(i as int, 6, w.1, w.2, w.3));
                }
                if refined_before(ls, resolution, i as int, 6, x) {
                    let w = choose|n: int, j: int, a: int, sd: int|
                        face_done(i as int, 6, j, a, sd) && #[trigger] refines_from(ls, resolution, j, a, sd, n)
                            && x == refine_key((ls[n].1, ls[n].0));
                    assert(face_done(i + 1, 0, w.1, w.2, w.3));
                }
            }
        }
        i += 1;
    }
    let mut r: Vec<(CellKey, u32)> = Vec::new();
    let mut j: usize = 0;
    while j < keys.len()
        invariant
            j <= keys@.len(),
            r@.len() == j,
            forall|a: int| 0 <= a < j ==> refine_key(#[trigger] r@[a]) == keys@[a],
            forall|x: SortKey| #[trigger]
                keys@.contains(x) <==> refined_before(ls, resolution, ls.len() as int, 0, x),
        decreases keys@.len() - j,
    {
        let x = keys[j];
        proof {
            assert(keys@.contains(x));
            let w = choose|n: int, j: int, a: int, sd: int|
                face_done(ls.len() as int, 0, j, a, sd) && #[trigger] refines_from(ls, resolution, j, a, sd, n)
                    && x == refine_key((ls[n].1, ls[n].0));
            assert(x.4 < 255);
        }
        r.push((
            CellKey { origin: CornerKey { x: x.0, y: x.1, z: x.2 }, span: x.3, depth: x.4 as u8 },
            x.5,
        ));
        j += 1;
    }
    proof {
        assert forall|e: (CellKey, u32)| #[trigger]
            r@.contains(e) <==> exists|n: int|
                0 <= n < ls.len() && e == (ls[n].1, ls[n].0) && #[trigger] needs_refinement(
                    ls,
                    resolution,
                    n,
                ) by {
            if r@.contains(e) {
                let a = choose|a: int| 0 <= a < r@.len() && r@[a] == e;
                let x = keys@[a];
                assert(keys@.contains(x));
                let w = choose|n: int, j: int, a: int, sd: int|
                    face_done(ls.len() as int, 0, j, a, sd) && #[trigger] refines_from(ls, resolution, j, a, sd, n)
                        && x == refine_key((ls[n].1, ls[n].0));
                lemma_across_in_range(
                    ls,
                    resolution,
                    leaf_patch(ls[w.1].1, w.2, w.3),
                    w.3,
                    span_log(ls[w.1].1.span),
                    levels_of(resolution),
                );
                assert(needs_refinement(ls, resolution, w.0));
                assert(e == (ls[w.0].1, ls[w.0].0));
            }
            if exists|n: int|
                0 <= n < ls.len() && e == (ls[n].1, ls[n].0) && #[trigger] needs_refinement(
                    ls,
                    resolution,
                    n,
                ) {
                let n = choose|n: int|
                    0 <= n < ls.len() && e == (ls[n].1, ls[n].0) && #[trigger] needs_refinement(
                        ls,
                        resolution,
                        n,
                    );
                let w = choose|j: int, a: int, sd: int| #[trigger] refines_from(ls, resolution, j, a, sd, n);
                let x = refine_key(e);
                assert(face_done(ls.len() as int, 0, w.0, w.1, w.2));
                assert(refined_before(ls, resolution, ls.len() as int, 0, x));
                assert(keys@.contains(x));
                let a = choose|a: int| 0 <= a < keys@.len() && keys@[a] == x;
                assert(refine_key(r@[a]) == x);
                assert(r@[a] == e);
            }
        }
    }
    r
}

/// A leaf found across a face is one of the leaves.
proof fn lemma_across_in_range(
    leaves: Seq<(u32, CellKey)>,
    resolution: u32,
    p: PatchTuple,
    s: int,
    k: nat,
    levels: nat,
)
    ensures
        across(leaves, p, s, k, levels) matches Some(n) ==> 0 <= n < leaves.len(),
    decreases levels - k,
{
    let q = widened(p, pow2(k) as int);
    if owner(leaves, q, s) is Some {
        let w = choose|j: int, axis: int, side: int| #[trigger] owns_face(leaves, j, axis, side, q, s);
    } else if k < levels {
        lemma_across_in_range(leaves, resolution, p, s, k + 1, levels);
    }
}

/// With no leaf to refine, the leaves are balanced two to one: the leaf
/// across any face of any leaf is at most one level coarser than it.
pub proof fn lemma_balanced_without_candidates(leaves: Seq<(u32, CellKey)>, resolution: u32)
    requires
        forall|n: int| 0 <= n < leaves.len() ==> !#[trigger] needs_refinement(leaves, resolution, n),
    ensures
        forall|j: int, axis: int, side: int|
            0 <= j < leaves.len() && 0 <= axis < 3 && 0 <= side < 2 ==> (#[trigger] across(
                leaves,
                leaf_patch(leaves[j].1, axis, side),
                side,
                span_log(leaves[j].1.span),
                levels_of(resolution),
            ) matches Some(n) ==> leaves[j].1.depth <= leaves[n].1.depth + 1),
{
    assert forall|j: int, axis: int, side: int|
        0 <= j < leaves.len() && 0 <= axis < 3 && 0 <= side < 2 implies (#[trigger] across(
            leaves,
            leaf_patch(leaves[j].1, axis, side),
            side,
            span_log(leaves[j].1.span),
            levels_of(resolution),
        ) matches Some(n) ==> leaves[j].1.depth <= leaves[n].1.depth + 1) by {
        lemma_across_in_range(
            leaves,
            resolution,
            leaf_patch(leaves[j].1, axis, side),
            side,
            span_log(leaves[j].1.span),
            levels_of(resolution),
        );
        if let Some(n) = across(
            leaves,
            leaf_patch(leaves[j].1, axis, side),
            side,
            span_log(leaves[j].1.span),
            levels_of(resolution),
        ) {
            if leaves[j].1.depth > leaves[n].1.depth + 1 {
                assert(refines_from(leaves, resolution, j, axis, side, n));
                assert(needs_refinement(leaves, resolution, n));
            }
        }
    }
}

/// Two multiples of `s` in increasing order are at least `s` apart.
proof fn lemma_multiples_apart(a: int, b: int, s: int)
    requires
        s > 0,
        a % s == 0,
        b % s == 0,
        a < b,
    ensures
        a + s <= b,
{
    lemma_fundamental_div_mod(a, s);
    lemma_fundamental_div_mod(b, s);
    let p = a / s;
    let q = b / s;
    assert(a + s <= b) by (nonlinear_arith)
        requires
            a == s * p,
            b == s * q,
            s > 0,
            a < b,
    ;
}

/// A multiple of `2^k2` is a multiple of `2^k1` for `k1 <= k2`.
proof fn lemma_pow2_multiple(x: int, k1: nat, k2: nat)
    requires
        k1 <= k2,
        x % (pow2(k2) as int) == 0,
    ensures
        x % (pow2(k1) as int) == 0,
{
    lemma_pow2_pos(k1);
    lemma_pow2_pos(k2);
    lemma_pow2_adds(k1, (k2 - k1) as nat);
    let m1 = pow2(k1) as int;
    let m2 = pow2(k2) as int;
    let r = pow2((k2 - k1) as nat) as int;
    assert(m1 * r == m2);
    lemma_fundamental_div_mod(x, m2);
    let q = x / m2;
    assert(x == (r * q) * m1) by (nonlinear_arith)
        requires
            x == m2 * q + 0,
            m1 * r == m2,
    ;
    lemma_mod_multiples_basic(r * q, m1);
}

/// `y` rounded down to a multiple of `s` is such a multiple, at most `y`
/// and within `s` of it.
proof fn lemma_aligned(y: int, s: int)
    requires
        s > 0,
    ensures
        aligned(y, s) % s == 0,
        aligned(y, s) <= y < aligned(y, s) + s,
{
    lemma_mod_bound(y, s);
    lemma_mod_bound(y % s, s);
    lemma_sub_mod_noop(y, y % s, s);
    assert((y % s) % s == y % s) by {
        lemma_fundamental_div_mod(y % s, s);
        lemma_mod_bound(y % s, s);
        assert((y % s) / s == 0) by (nonlinear_arith)
            requires
                y % s == s * ((y % s) / s) + (y % s) % s,
                0 <= y % s < s,
                0 <= (y % s) % s < s,
        ;
    }
    assert(0int % s == 0) by {
        lemma_fundamental_div_mod(0, s);
        lemma_mod_bound(0, s);
        assert(0int / s == 0) by (nonlinear_arith)
            requires
                0 == s * (0int / s) + 0int % s,
                0 <= 0int % s < s,
                s > 0,
        ;
    }
}

/// An aligned interval `[yb, yb + sb)` meeting an aligned interval
/// `[ya, ya + sa)` with `sb <= s <= sa`, all dyadic: rounding `yb` down to
/// `s` stays inside the larger interval, and lands on `ya` at `s == sa`.
proof fn lemma_nested_interval(ya: int, sa: int, yb: int, sb: int, s: int)
    requires
        sb > 0,
        s > 0,
        sa > 0,
        ya % sa == 0,
        ya % sb == 0,
        ya % s == 0,
        sa % s == 0,
        yb % sb == 0,
        ya < yb + sb,
        yb < ya + sa,
    ensures
        ya <= aligned(yb, s),
        aligned(yb, s) + s <= ya + sa,
        s == sa ==> aligned(yb, s) == ya,
{
    if ya > yb {
        lemma_multiples_apart(yb, ya, sb);
    }
    lemma_aligned(yb, s);
    let al = aligned(yb, s);
    if ya > al {
        lemma_multiples_apart(al, ya, s);
    }
    lemma_add_mod_noop(ya, sa, s);
    assert(0int % s == 0) by {
        lemma_aligned(0, s);
    }
    lemma_multiples_apart(al, ya + sa, s);
    if s == sa && al > ya {
        lemma_multiples_apart(ya, al, sa);
    }
}

/// Cell `c` starts on a multiple of its span on every axis.
pub open spec fn aligned_cell(c: CellKey) -> bool {
    &&& c.origin.x % c.span == 0
    &&& c.origin.y % c.span == 0
    &&& c.origin.z % c.span == 0
}

/// Cells `a` and `b` do not overlap along `axis`.
pub open spec fn separated(a: CellKey, b: CellKey, axis: int) -> bool {
    coord(a.origin, axis) + a.span <= coord(b.origin, axis) || coord(b.origin, axis) + b.span
        <= coord(a.origin, axis)
}

/// Cells `a` and `b` share no interior point.
pub open spec fn cells_disjoint(a: CellKey, b: CellKey) -> bool {
    separated(a, b, 0) || separated(a, b, 1) || separated(a, b, 2)
}

/// The leaves are the leaves of an octree over the grid: valid, each
/// aligned to its span with the depth of its span, no two overlapping.
pub open spec fn octree_leaves(leaves: Seq<(u32, CellKey)>, resolution: u32) -> bool {
    &&& valid_leaves(leaves, resolution)
    &&& forall|i: int|
        0 <= i < leaves.len() ==> aligned_cell(#[trigger] leaves[i].1) && span_log(leaves[i].1.span)
            + leaves[i].1.depth == levels_of(resolution)
    &&& forall|i: int, j: int|
        0 <= i < leaves.len() && 0 <= j < leaves.len() && i != j ==> cells_disjoint(
            #[trigger] leaves[i].1,
            #[trigger] leaves[j].1,
        )
}

/// The half-open intervals `[a0, a1)` and `[b0, b1)` overlap.
pub open spec fn overlap(a0: int, a1: int, b0: int, b1: int) -> bool {
    a0 < b1 && b0 < a1
}

/// Cell `b` lies right after cell `a` along `axis`, and their faces on the
/// plane between them overlap.
pub open spec fn meets_across(a: CellKey, b: CellKey, axis: int) -> bool {
    let (u, v) = other_axes(axis);
    &&& 0 <= axis < 3
    &&& coord(a.origin, axis) + a.span == coord(b.origin, axis)
    &&& overlap(
        coord(a.origin, u),
        coord(a.origin, u) + a.span,
        coord(b.origin, u),
        coord(b.origin, u) + b.span,
    )
    &&& overlap(
        coord(a.origin, v),
        coord(a.origin, v) + a.span,
        coord(b.origin, v),
        coord(b.origin, v) + b.span,
    )
}

/// Cells `a` and `b` share part of a face.
pub open spec fn face_adjacent(a: CellKey, b: CellKey) -> bool {
    exists|axis: int| #[trigger] meets_across(a, b, axis) || meets_across(b, a, axis)
}

proof fn lemma_span_log(span: u32)
    requires
        is_dyadic(span),
    ensures
        span_log(span) < 32,
        pow2(span_log(span)) == span,
{
}

/// Along the faces of the finer leaf `b` facing the coarser leaf `a`, the
/// patch widened to any span from `b`'s up to below `a`'s has no owner on
/// `a`'s side: such an owner would overlap `a`.
proof fn lemma_no_owner_below(
    leaves: Seq<(u32, CellKey)>,
    resolution: u32,
    bi: int,
    ai: int,
    axis: int,
    sd: int,
    k: nat,
)
    requires
        octree_leaves(leaves, resolution),
        0 <= bi < leaves.len(),
        0 <= ai < leaves.len(),
        0 <= axis < 3,
        sd == 0 || sd == 1,
        sd == 0 ==> meets_across(leaves[ai].1, leaves[bi].1, axis),
        sd == 1 ==> meets_across(leaves[bi].1, leaves[ai].1, axis),
        span_log(leaves[bi].1.span) <= k < span_log(leaves[ai].1.span),
    ensures
        owner(leaves, widened(leaf_patch(leaves[bi].1, axis, sd), pow2(k) as int), sd) is None,
{
    let a = leaves[ai].1;
    let b = leaves[bi].1;
    let ka = span_log(a.span);
    let kb = span_log(b.span);
    assert(aligned_cell(leaves[ai].1) && aligned_cell(leaves[bi].1));
    assert(a.fits() && b.fits() && is_dyadic(a.span) && is_dyadic(b.span));
    lemma_span_log(a.span);
    lemma_span_log(b.span);
    lemma_pow2_pos(k);
    lemma_pow2_pos(kb);
    lemma_pow2_strictly_increases(k, ka);
    let s = pow2(k) as int;
    let sa = a.span as int;
    let sb = b.span as int;
    assert(sb > 0 && s < sa);
    let q = widened(leaf_patch(b, axis, sd), s);
    if owner(leaves, q, sd) is Some {
        let w = choose|j: int, ax: int, side: int| #[trigger] owns_face(leaves, j, ax, side, q, sd);
        let ci = w.0;
        let c = leaves[ci].1;
        assert(c.fits());
        assert(w.1 == axis);
        assert(w.2 == 1 - sd);
        assert(c.span == s);
        let (u, v) = other_axes(axis);
        assert(sa % sa == 0) by {
            lemma_mod_multiples_basic(1, sa);
        }
        // On the other two axes `c` lies inside `a`.
        assert forall|t: int| t == u || t == v implies !separated(c, a, t) by {
            let ya = coord(a.origin, t);
            let yb = coord(b.origin, t);
            lemma_pow2_multiple(ya, k, ka);
            lemma_pow2_multiple(ya, kb, ka);
            lemma_pow2_multiple(sa, k, ka);
            lemma_nested_interval(ya, sa, yb, sb, s);
            lemma_aligned(yb, s);
            assert(coord(c.origin, t) == aligned(yb, s));
        }
        // Along `axis`, `c` sits on the same side of the shared plane as `a`.
        let pa = coord(a.origin, axis);
        let pb = coord(b.origin, axis);
        let pc = coord(c.origin, axis);
        if sd == 0 {
            assert(pa + sa == pb);
            assert(leaf_patch(c, axis, 1) == q);
            assert(q.1 == leaf_patch(b, axis, 0).1);
            assert(0 * b.span == 0) by (nonlinear_arith);
            assert(leaf_patch(b, axis, 0).1 == pb as u32);
            assert(leaf_patch(c, axis, 1).1 == (coord(c.origin, axis) + 1 * c.span) as u32);
            assert(1 * c.span == c.span) by (nonlinear_arith);
            assert(leaf_patch(c, axis, 1).1 == (pc + s) as u32);
            assert(pc + s == pb);
        } else {
            assert(pb + sb == pa);
            assert(leaf_patch(c, axis, 0) == q);
            assert(q.1 == leaf_patch(b, axis, 1).1);
            assert(1 * b.span == b.span) by (nonlinear_arith);
            assert(leaf_patch(b, axis, 1).1 == (pb + sb) as u32);
            assert(0 * c.span == 0) by (nonlinear_arith);
            assert(leaf_patch(c, axis, 0).1 == pc as u32);
            assert(pc == pa);
        }
        assert(!separated(c, a, axis));
        assert(!cells_disjoint(c, a));
        assert(ci != ai);
        assert(false);
    }
}


/// The coarser leaf `a` owns, on its side, the patch of the finer leaf `b`
/// widened to `a`'s span: that patch is `a`'s own face.
proof fn lemma_owner_at_coarse(
    leaves: Seq<(u32, CellKey)>,
    resolution: u32,
    bi: int,
    ai: int,
    axis: int,
    sd: int,
)
    requires
        octree_leaves(leaves, resolution),
        0 <= bi < leaves.len(),
        0 <= ai < leaves.len(),
        0 <= axis < 3,
        sd == 0 || sd == 1,
        sd == 0 ==> meets_across(leaves[ai].1, leaves[bi].1, axis),
        sd == 1 ==> meets_across(leaves[bi].1, leaves[ai].1, axis),
        span_log(leaves[bi].1.span) <= span_log(leaves[ai].1.span),
    ensures
        owner(
            leaves,
            widened(leaf_patch(leaves[bi].1, axis, sd), pow2(span_log(leaves[ai].1.span)) as int),
            sd,
        ) == Some(ai),
{
    let a = leaves[ai].1;
    let b = leaves[bi].1;
    let ka = span_log(a.span);
    let kb = span_log(b.span);
    assert(aligned_cell(leaves[ai].1) && aligned_cell(leaves[bi].1));
    assert(a.fits() && b.fits() && is_dyadic(a.span) && is_dyadic(b.span));
    lemma_span_log(a.span);
    lemma_span_log(b.span);
    lemma_pow2_pos(ka);
    lemma_pow2_pos(kb);
    let sa = a.span as int;
    let sb = b.span as int;
    let q = widened(leaf_patch(b, axis, sd), sa);
    let (u, v) = other_axes(axis);
    assert(sa % sa == 0) by {
        lemma_mod_multiples_basic(1, sa);
    }
    assert forall|t: int| t == u || t == v implies coord(a.origin, t) == aligned(
        coord(b.origin, t),
        sa,
    ) by {
        let ya = coord(a.origin, t);
        let yb = coord(b.origin, t);
        lemma_pow2_multiple(ya, kb, ka);
        lemma_nested_interval(ya, sa, yb, sb, sa);
    }
    let pa = coord(a.origin, axis);
    let pb = coord(b.origin, axis);
    assert(1 * a.span == a.span) by (nonlinear_arith);
    assert(0 * a.span == 0) by (nonlinear_arith);
    assert(1 * b.span == b.span) by (nonlinear_arith);
    assert(0 * b.span == 0) by (nonlinear_arith);
    assert(leaf_patch(a, axis, 1 - sd) == q);
    assert(owns_face(leaves, ai, axis, 1 - sd, q, sd));
    lemma_owner_is(leaves, resolution, ai, axis, 1 - sd, q, sd);
}

/// From the finer leaf `b`'s face towards the coarser leaf `a`, the search
/// across that face, started at any span from `b`'s up to `a`'s, finds `a`.
proof fn lemma_across_reaches(
    leaves: Seq<(u32, CellKey)>,
    resolution: u32,
    bi: int,
    ai: int,
    axis: int,
    sd: int,
    k: nat,
)
    requires
        octree_leaves(leaves, resolution),
        0 <= bi < leaves.len(),
        0 <= ai < leaves.len(),
        0 <= axis < 3,
        sd == 0 || sd == 1,
        sd == 0 ==> meets_across(leaves[ai].1, leaves[bi].1, axis),
        sd == 1 ==> meets_across(leaves[bi].1, leaves[ai].1, axis),
        span_log(leaves[bi].1.span) <= k <= span_log(leaves[ai].1.span),
        span_log(leaves[ai].1.span) <= levels_of(resolution),
    ensures
        across(leaves, leaf_patch(leaves[bi].1, axis, sd), sd, k, levels_of(resolution)) == Some(ai),
    decreases span_log(leaves[ai].1.span) - k,
{
    let ka = span_log(leaves[ai].1.span);
    if k == ka {
        lemma_owner_at_coarse(leaves, resolution, bi, ai, axis, sd);
    } else {
        lemma_no_owner_below(leaves, resolution, bi, ai, axis, sd, k);
        lemma_across_reaches(leaves, resolution, bi, ai, axis, sd, k + 1);
    }
}

/// A finer leaf sharing part of a face with a coarser leaf, with no leaf
/// left to refine, is at most one level deeper.
proof fn lemma_finer_neighbor_balanced(
    leaves: Seq<(u32, CellKey)>,
    resolution: u32,
    bi: int,
    ai: int,
)
    requires
        octree_leaves(leaves, resolution),
        forall|n: int| 0 <= n < leaves.len() ==> !#[trigger] needs_refinement(leaves, resolution, n),
        0 <= bi < leaves.len(),
        0 <= ai < leaves.len(),
        face_adjacent(leaves[bi].1, leaves[ai].1),
    ensures
        leaves[bi].1.depth <= leaves[ai].1.depth + 1,
{
    let a = leaves[ai].1;
    let b = leaves[bi].1;
    if b.depth > a.depth + 1 {
        assert(span_log(leaves[ai].1.span) + leaves[ai].1.depth == levels_of(resolution));
        assert(span_log(leaves[bi].1.span) + leaves[bi].1.depth == levels_of(resolution));
        assert(face_adjacent(b, a));
        let axis = choose|axis: int| #[trigger] meets_across(b, a, axis) || meets_across(a, b, axis);
        assert(meets_across(b, a, axis) || meets_across(a, b, axis));
        let sd: int = if meets_across(a, b, axis) { 0 } else { 1 };
        lemma_across_reaches(leaves, resolution, bi, ai, axis, sd, span_log(b.span));
        assert(refines_from(leaves, resolution, bi, axis, sd, ai));
        assert(needs_refinement(leaves, resolution, ai));
    }
}

/// Two-to-one balance: once no leaf of an octree needs refinement, any two
/// leaves sharing part of a face differ in depth by at most one level.
pub proof fn lemma_face_neighbors_balanced(
    leaves: Seq<(u32, CellKey)>,
    resolution: u32,
    i: int,
    j: int,
)
    requires
        octree_leaves(leaves, resolution),
        forall|n: int| 0 <= n < leaves.len() ==> !#[trigger] needs_refinement(leaves, resolution, n),
        0 <= i < leaves.len(),
        0 <= j < leaves.len(),
        face_adjacent(leaves[i].1, leaves[j].1),
    ensures
        leaves[i].1.depth <= leaves[j].1.depth + 1,
        leaves[j].1.depth <= leaves[i].1.depth + 1,
{
    let a = leaves[i].1;
    let b = leaves[j].1;
    let axis = choose|axis: int| #[trigger] meets_across(a, b, axis) || meets_across(b, a, axis);
    assert(meets_across(b, a, axis) || meets_across(a, b, axis));
    assert(face_adjacent(b, a));
    lemma_finer_neighbor_balanced(leaves, resolution, i, j);
    lemma_finer_neighbor_balanced(leaves, resolution, j, i);
}

} // verus!
