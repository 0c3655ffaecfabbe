//! Minimal primal edge segments of a set of octree leaves.
//!
//! Every leaf edge is an interval on a grid line. On each line, the ends
//! of all intervals on it are breakpoints; a minimal segment runs between
//! two consecutive breakpoints inside one leaf edge. The segments come out
//! ordered by axis, then `z`, `y`, `x` of the start corner, then length,
//! each once.
use vstd::prelude::*;

use crate::sorted::{insert_sorted, key_lt, position_of, strictly_sorted, SortKey};
use crate::grid::{
    coord, edge_interval, other_axes, segment_from_line, CellKey, CornerKey, EdgeInterval,
    EdgeLineKey, EdgeSegmentKey,
};

verus! {

/// The edge of `cell` numbered `k` (`0..12`): along axis `k / 4`, at the
/// high end of the first other axis when bit 1 of `k` is set and of the
/// second when bit 0 is set.
pub open spec fn leaf_interval(cell: CellKey, k: int) -> EdgeInterval {
    let axis = k / 4;
    let first_high = (k % 4) / 2 == 1;
    let second_high = k % 2 == 1;
    EdgeInterval {
        line: EdgeLineKey {
            axis: axis as u8,
            fixed_u: (coord(cell.origin, other_axes(axis).0) + (if first_high {
                cell.span as int
            } else {
                0
            })) as u32,
            fixed_v: (coord(cell.origin, other_axes(axis).1) + (if second_high {
                cell.span as int
            } else {
                0
            })) as u32,
        },
        start: coord(cell.origin, axis) as u32,
        end: (coord(cell.origin, axis) + cell.span) as u32,
    }
}

/// `b` is the start or end of some leaf edge on `line`.
pub open spec fn is_breakpoint(leaves: Seq<(u32, CellKey)>, line: EdgeLineKey, b: int) -> bool {
    exists|i: int, k: int|
        0 <= i < leaves.len() && 0 <= k < 12 && (#[trigger] leaf_interval(leaves[i].1, k)).line
            == line && (leaf_interval(leaves[i].1, k).start == b || leaf_interval(leaves[i].1, k).end
            == b)
}

/// `s < f` are consecutive breakpoints on the line of `iv`, inside `iv`.
pub open spec fn splits(leaves: Seq<(u32, CellKey)>, iv: EdgeInterval, s: int, f: int) -> bool {
    &&& iv.start <= s < f <= iv.end
    &&& is_breakpoint(leaves, iv.line, s)
    &&& is_breakpoint(leaves, iv.line, f)
    &&& forall|b: int| s < b < f ==> !#[trigger] is_breakpoint(leaves, iv.line, b)
}

/// The grid line a segment lies on.
pub open spec fn line_of(seg: EdgeSegmentKey) -> EdgeLineKey {
    EdgeLineKey {
        axis: seg.axis,
        fixed_u: coord(seg.start, other_axes(seg.axis as int).0) as u32,
        fixed_v: coord(seg.start, other_axes(seg.axis as int).1) as u32,
    }
}

/// `seg` is a minimal segment of the leaf edge `iv`.
pub open spec fn segment_of(leaves: Seq<(u32, CellKey)>, iv: EdgeInterval, seg: EdgeSegmentKey) -> bool {
    &&& seg.axis < 3
    &&& line_of(seg) == iv.line
    &&& splits(
        leaves,
        iv,
        coord(seg.start, seg.axis as int),
        coord(seg.start, seg.axis as int) + seg.length,
    )
}

/// `seg` is a minimal segment of some leaf edge.
pub open spec fn is_leaf_segment(leaves: Seq<(u32, CellKey)>, seg: EdgeSegmentKey) -> bool {
    exists|i: int, k: int|
        0 <= i < leaves.len() && 0 <= k < 12 && segment_of(
            leaves,
            #[trigger] leaf_interval(leaves[i].1, k),
            seg,
        )
}

/// The output order of segments: axis, start `z`, `y`, `x`, length.
pub open spec fn segment_key(seg: EdgeSegmentKey) -> SortKey {
    (seg.axis as u32, seg.start.z, seg.start.y, seg.start.x, seg.length, 0u32)
}

/// The segment with sort key `k`.
pub open spec fn key_segment(k: SortKey) -> EdgeSegmentKey {
    EdgeSegmentKey { axis: k.0 as u8, start: CornerKey { x: k.3, y: k.2, z: k.1 }, length: k.4 }
}

/// The sort key of breakpoint `b` on `line`.
pub open spec fn breakpoint_key(line: EdgeLineKey, b: u32) -> SortKey {
    (line.axis as u32, line.fixed_u, line.fixed_v, b, 0u32, 0u32)
}

/// The line of a breakpoint sort key.
pub open spec fn key_line(x: SortKey) -> EdgeLineKey {
    EdgeLineKey { axis: x.0 as u8, fixed_u: x.1, fixed_v: x.2 }
}

/// Leaf `i`'s edge `k` has `x` as the key of its start or end.
pub open spec fn ends_at(leaves: Seq<(u32, CellKey)>, i: int, k: int, x: SortKey) -> bool {
    let iv = leaf_interval(leaves[i].1, k);
    x == breakpoint_key(iv.line, iv.start) || x == breakpoint_key(iv.line, iv.end)
}

/// `x` is an end key of an edge before edge `k` of leaf `i`, in leaf-major
/// order.
pub open spec fn ends_before(leaves: Seq<(u32, CellKey)>, i: int, k: int, x: SortKey) -> bool {
    exists|i2: int, k2: int|
        0 <= i2 < leaves.len() && 0 <= k2 < 12 && (i2 < i || (i2 == i && k2 < k))
            && #[trigger] ends_at(leaves, i2, k2, x)
}

/// Edge `k` of `cell`.
fn interval_at(cell: CellKey, k: usize) -> (r: EdgeInterval)
    requires
        cell.fits(),
        k < 12,
    ensures
        r == leaf_interval(cell, k as int),
{
    let axis = (k / 4) as u8;
    let first_high = (k % 4) / 2 == 1;
    let second_high = k % 2 == 1;
    let r = edge_interval(cell, axis, first_high, second_high);
    proof {
        let l = leaf_interval(cell, k as int);
        assert(r.line == l.line);
    }
    r
}

/// The breakpoints of all leaf edges, as sorted keys.
fn collect_breakpoints(leaves: &[(u32, CellKey)]) -> (bp: Vec<SortKey>)
    requires
        forall|i: int| 0 <= i < leaves@.len() ==> (#[trigger] leaves@[i]).1.fits(),
    ensures
        strictly_sorted(bp@),
        forall|x: SortKey| #[trigger]
            bp@.contains(x) <==> x.0 < 3 && x.4 == 0 && x.5 == 0 && is_breakpoint(leaves@, key_line(x), x.3 as int),
{
    let mut bp: Vec<SortKey> = Vec::new();
    let mut i: usize = 0;
    while i < leaves.len()
        invariant
            i <= leaves@.len(),
            forall|i: int| 0 <= i < leaves@.len() ==> (#[trigger] leaves@[i]).1.fits(),
            strictly_sorted(bp@),
            forall|x: SortKey| #[trigger] bp@.contains(x) <==> ends_before(leaves@, i as int, 0, x),
        decreases leaves@.len() - i,
    {
        let cell = leaves[i].1;
        let mut k: usize = 0;
        while k < 12
            invariant
                i < leaves@.len(),
                k <= 12,
                cell == leaves@[i as int].1,
                cell.fits(),
                strictly_sorted(bp@),
                forall|x: SortKey| #[trigger]
                    bp@.contains(x) <==> ends_before(leaves@, i as int, k as int, x),
            decreases 12 - k,
        {
            let iv = interval_at(cell, k);
            let ghost before = bp@;
            insert_sorted(&mut bp, (iv.line.axis as u32, iv.line.fixed_u, iv.line.fixed_v, iv.start, 0, 0));
            insert_sorted(&mut bp, (iv.line.axis as u32, iv.line.fixed_u, iv.line.fixed_v, iv.end, 0, 0));
            proof {
                assert forall|x: SortKey| #[trigger] bp@.contains(x) <==> ends_before(
                    leaves@,
                    i as int,
                    k + 1,
                    x,
                ) by {
                    if ends_before(leaves@, i as int, k + 1, x) {
                        let (i2, k2) = choose|i2: int, k2: int|
                            0 <= i2 < leaves@.len() && 0 <= k2 < 12 && (i2 < i || (i2 == i && k2
                                < k + 1)) && #[trigger] ends_at(leaves@, i2, k2, x);
                        if !(i2 == i && k2 == k) {
                            assert(ends_before(leaves@, i as int, k as int, x));
                        }
                    }
                    if ends_before(leaves@, i as int, k as int, x) {
                        let (i2, k2) = choose|i2: int, k2: int|
                            0 <= i2 < leaves@.len() && 0 <= k2 < 12 && (i2 < i || (i2 == i && k2
                                < k)) && #[trigger] ends_at(leaves@, i2, k2, x);
                        assert(ends_at(leaves@, i2, k2, x));
                    }
                    if x == breakpoint_key(iv.line, iv.start) || x == breakpoint_key(iv.line, iv.end) {
                        assert(ends_at(leaves@, i as int, k as int, x));
                    }
                }
            }
            k += 1;
        }
        proof {
            assert forall|x: SortKey| #[trigger] bp@.contains(x) <==> ends_before(
                leaves@,
                i + 1,
                0,
                x,
            ) by {
                if ends_before(leaves@, i + 1, 0, x) {
                    let (i2, k2) = choose|i2: int, k2: int|
                        0 <= i2 < leaves@.len() && 0 <= k2 < 12 && (i2 < i + 1 || (i2 == i + 1
                            && k2 < 0)) && #[trigger] ends_at(leaves@, i2, k2, x);
                    assert(ends_before(leaves@, i as int, 12, x));
                }
                if ends_before(leaves@, i as int, 12, x) {
                    let (i2, k2) = choose|i2: int, k2: int|
                        0 <= i2 < leaves@.len() && 0 <= k2 < 12 && (i2 < i || (i2 == i && k2
                            < 12)) && #[trigger] ends_at(leaves@, i2, k2, x);
                    assert(ends_at(leaves@, i2, k2, x));
                }
            }
        }
        i += 1;
    }
    proof {
        assert forall|x: SortKey| #[trigger] bp@.contains(x) <==> x.0 < 3 && x.4 == 0 && x.5 == 0 && is_breakpoint(
            leaves@,
            key_line(x),
            x.3 as int,
        ) by {
            if ends_before(leaves@, leaves@.len() as int, 0, x) {
                let (i2, k2) = choose|i2: int, k2: int|
                    0 <= i2 < leaves@.len() && 0 <= k2 < 12 && (i2 < leaves@.len() || (i2
                        == leaves@.len() && k2 < 0)) && #[trigger] ends_at(leaves@, i2, k2, x);
                let iv = leaf_interval(leaves@[i2].1, k2);
                assert(iv.line == key_line(x));
            }
            if x.0 < 3 && x.4 == 0 && x.5 == 0 && is_breakpoint(leaves@, key_line(x), x.3 as int) {
                let (i2, k2) = choose|i2: int, k2: int|
                    0 <= i2 < leaves@.len() && 0 <= k2 < 12 && (#[trigger] leaf_interval(
                        leaves@[i2].1,
                        k2,
                    )).line == key_line(x) && (leaf_interval(leaves@[i2].1, k2).start == x.3 as int
                        || leaf_interval(leaves@[i2].1, k2).end == x.3 as int);
                assert(ends_at(leaves@, i2, k2, x));
            }
        }
    }
    bp
}

/// `bp` holds exactly the breakpoint keys of the leaves' edges, sorted.
pub open spec fn breakpoint_set(leaves: Seq<(u32, CellKey)>, bp: Seq<SortKey>) -> bool {
    &&& strictly_sorted(bp)
    &&& forall|x: SortKey| #[trigger]
        bp.contains(x) <==> x.0 < 3 && x.4 == 0 && x.5 == 0 && is_breakpoint(leaves, key_line(x), x.3 as int)
}

/// An entry of `bp` between the keys of two breakpoints of `line` lies on
/// `line` between them.
proof fn lemma_run_entry(bp: Seq<SortKey>, line: EdgeLineKey, start: u32, end: u32, lo: int, hi: int, m: int)
    requires
        strictly_sorted(bp),
        0 <= lo <= m <= hi < bp.len(),
        bp[lo] == breakpoint_key(line, start),
        bp[hi] == breakpoint_key(line, end),
    ensures
        key_line(bp[m]) == line,
        start <= bp[m].3 <= end,
{
    if lo < m {
        assert(key_lt(bp[lo], bp[m]));
    }
    if m < hi {
        assert(key_lt(bp[m], bp[hi]));
    }
}

/// The segment between entries `m` and `m + 1` of the run of `iv`'s
/// breakpoints is a minimal segment of `iv`, and it is the only one that
/// starts at or above entry `m` and below entry `m + 1`.
proof fn lemma_run_step(
    leaves: Seq<(u32, CellKey)>,
    bp: Seq<SortKey>,
    iv: EdgeInterval,
    lo: int,
    hi: int,
    m: int,
    seg: EdgeSegmentKey,
)
    requires
        breakpoint_set(leaves, bp),
        iv.line.axis < 3,
        0 <= lo <= m < hi < bp.len(),
        bp[lo] == breakpoint_key(iv.line, iv.start),
        bp[hi] == breakpoint_key(iv.line, iv.end),
        seg.axis == iv.line.axis,
        seg.length == bp[m + 1].3 - bp[m].3,
        coord(seg.start, iv.line.axis as int) == bp[m].3,
        coord(seg.start, other_axes(iv.line.axis as int).0) == iv.line.fixed_u,
        coord(seg.start, other_axes(iv.line.axis as int).1) == iv.line.fixed_v,
    ensures
        segment_of(leaves, iv, seg),
        forall|x: SortKey|
            (run_key(x) && segment_of(leaves, iv, #[trigger] key_segment(x)) && coord(
                key_segment(x).start,
                x.0 as int,
            ) < bp[m + 1].3) <==> ((run_key(x) && segment_of(leaves, iv, key_segment(x)) && coord(
                key_segment(x).start,
                x.0 as int,
            ) < bp[m].3) || x == segment_key(seg)),
{
    lemma_run_entry(bp, iv.line, iv.start, iv.end, lo, hi, m);
    lemma_run_entry(bp, iv.line, iv.start, iv.end, lo, hi, m + 1);
    let s = bp[m].3 as int;
    let f = bp[m + 1].3 as int;
    assert(key_lt(bp[m], bp[m + 1]));
    assert(bp.contains(bp[m]));
    assert(bp.contains(bp[m + 1]));
    assert(is_breakpoint(leaves, iv.line, s));
    assert(is_breakpoint(leaves, iv.line, f));
    assert forall|b: int| s < b < f implies !#[trigger] is_breakpoint(leaves, iv.line, b) by {
        if is_breakpoint(leaves, iv.line, b) {
            let (i2, k2) = choose|i2: int, k2: int|
                0 <= i2 < leaves.len() && 0 <= k2 < 12 && (#[trigger] leaf_interval(
                    leaves[i2].1,
                    k2,
                )).line == iv.line && (leaf_interval(leaves[i2].1, k2).start == b || leaf_interval(
                    leaves[i2].1,
                    k2,
                ).end == b);
            let kb = breakpoint_key(iv.line, b as u32);
            assert(key_line(kb) == iv.line);
            assert(bp.contains(kb));
            let w = choose|w: int| 0 <= w < bp.len() && bp[w] == kb;
            if w <= m {
                if w < m {
                    assert(key_lt(bp[w], bp[m]));
                }
            } else {
                if w > m + 1 {
                    assert(key_lt(bp[m + 1], bp[w]));
                }
            }
        }
    }
    assert(line_of(seg) == iv.line);
    assert(splits(leaves, iv, s, f));
    assert forall|x: SortKey|
        (run_key(x) && segment_of(leaves, iv, #[trigger] key_segment(x)) && coord(
            key_segment(x).start,
            x.0 as int,
        ) < f) <==> ((run_key(x) && segment_of(leaves, iv, key_segment(x)) && coord(
            key_segment(x).start,
            x.0 as int,
        ) < s) || x == segment_key(seg)) by {
        let sx = key_segment(x);
        if x == segment_key(seg) {
            assert(sx == seg);
        }
        if run_key(x) && segment_of(leaves, iv, sx) && s <= coord(sx.start, x.0 as int) < f {
            let a = coord(sx.start, x.0 as int);
            let g = a + sx.length;
            assert(is_breakpoint(leaves, iv.line, a));
            assert(a == s);
            assert(is_breakpoint(leaves, iv.line, g));
            assert(!(s < g < f));
            assert(!(a < f < g));
            assert(g == f);
            assert(sx == seg);
            assert(x == segment_key(sx));
        }
    }
}

/// `x` is the key of a minimal segment of edge `k` of leaf `i`.
pub open spec fn from_edge(leaves: Seq<(u32, CellKey)>, i: int, k: int, x: SortKey) -> bool {
    run_key(x) && segment_of(leaves, leaf_interval(leaves[i].1, k), key_segment(x))
}

/// `x` has the shape of a segment's sort key.
pub open spec fn run_key(x: SortKey) -> bool {
    x.0 < 3 && x.5 == 0
}

/// `x` is the key of a minimal segment of an edge before edge `k` of leaf
/// `i`, in leaf-major order.
pub open spec fn segments_before(leaves: Seq<(u32, CellKey)>, i: int, k: int, x: SortKey) -> bool {
    exists|i2: int, k2: int|
        0 <= i2 < leaves.len() && 0 <= k2 < 12 && (i2 < i || (i2 == i && k2 < k))
            && #[trigger] from_edge(leaves, i2, k2, x)
}

/// Adds the minimal segments of edge `k` of leaf `i` to `keys`.
fn add_edge_segments(
    leaves: &[(u32, CellKey)],
    bp: &Vec<SortKey>,
    keys: &mut Vec<SortKey>,
    i: usize,
    k: usize,
)
    requires
        i < leaves@.len(),
        k < 12,
        leaves@[i as int].1.fits(),
        breakpoint_set(leaves@, bp@),
        strictly_sorted(old(keys)@),
        forall|x: SortKey| #[trigger]
            old(keys)@.contains(x) <==> segments_before(leaves@, i as int, k as int, x),
    ensures
        strictly_sorted(final(keys)@),
        forall|x: SortKey| #[trigger]
            final(keys)@.contains(x) <==> segments_before(leaves@, i as int, k + 1, x),
{
    let ghost ls = leaves@;
    let iv = interval_at(leaves[i].1, k);
    let ghost line = iv.line;
    let ks = (iv.line.axis as u32, iv.line.fixed_u, iv.line.fixed_v, iv.start, 0u32, 0u32);
    let ke = (iv.line.axis as u32, iv.line.fixed_u, iv.line.fixed_v, iv.end, 0u32, 0u32);
    proof {
        assert(is_breakpoint(ls, line, iv.start as int));
        assert(is_breakpoint(ls, line, iv.end as int));
        assert(key_line(ks) == line && key_line(ke) == line);
        assert(bp@.contains(ks));
        assert(bp@.contains(ke));
    }
    let lo = position_of(bp, ks);
    let hi = position_of(bp, ke);
    proof {
        if hi < lo {
            assert(key_lt(bp@[hi as int], ks));
        }
    }
    let mut m = lo;
    while m < hi
        invariant
            lo <= m <= hi < bp@.len(),
            ls == leaves@,
            iv == leaf_interval(ls[i as int].1, k as int),
            line == iv.line,
            line.axis < 3,
            breakpoint_set(ls, bp@),
            bp@[lo as int] == breakpoint_key(line, iv.start),
            bp@[hi as int] == breakpoint_key(line, iv.end),
            strictly_sorted(keys@),
            forall|x: SortKey| #[trigger]
                keys@.contains(x) <==> segments_before(ls, i as int, k as int, x) || (run_key(x) && segment_of(
                    ls,
                    iv,
                    key_segment(x),
                ) && coord(key_segment(x).start, x.0 as int) < bp@[m as int].3),
        decreases hi - m,
    {
        proof {
            lemma_run_entry(bp@, line, iv.start, iv.end, lo as int, hi as int, m as int);
            lemma_run_entry(bp@, line, iv.start, iv.end, lo as int, hi as int, m + 1);
            assert(key_lt(bp@[m as int], bp@[m + 1]));
        }
        let s = bp[m].3;
        let f = bp[m + 1].3;
        let seg = segment_from_line(iv.line, s, f - s);
        let ghost before = keys@;
        insert_sorted(keys, (seg.axis as u32, seg.start.z, seg.start.y, seg.start.x, seg.length, 0));
        proof {
            lemma_run_step(ls, bp@, iv, lo as int, hi as int, m as int, seg);
            assert forall|x: SortKey| #[trigger]
                keys@.contains(x) <==> segments_before(ls, i as int, k as int, x) || (run_key(x) && segment_of(
                    ls,
                    iv,
                    key_segment(x),
                ) && coord(key_segment(x).start, x.0 as int) < bp@[m + 1].3) by {
                assert(run_key(x) && segment_of(ls, iv, key_segment(x)) && coord(
                    key_segment(x).start,
                    x.0 as int,
                ) < bp@[m + 1].3 <==> ((run_key(x) && segment_of(ls, iv, key_segment(x)) && coord(
                    key_segment(x).start,
                    x.0 as int,
                ) < bp@[m as int].3) || x == segment_key(seg)));
            }
        }
        m += 1;
    }
    proof {
        assert forall|x: SortKey| #[trigger]
            keys@.contains(x) <==> segments_before(ls, i as int, k + 1, x) by {
            if segments_before(ls, i as int, k + 1, x) {
                let (i2, k2) = choose|i2: int, k2: int|
                    0 <= i2 < ls.len() && 0 <= k2 < 12 && (i2 < i || (i2 == i && k2 < k + 1))
                        && #[trigger] from_edge(ls, i2, k2, x);
                if !(i2 == i && k2 == k) {
                    assert(segments_before(ls, i as int, k as int, x));
                } else {
                    assert(run_key(x) && segment_of(ls, iv, key_segment(x)));
                }
            }
            if segments_before(ls, i as int, k as int, x) {
                let (i2, k2) = choose|i2: int, k2: int|
                    0 <= i2 < ls.len() && 0 <= k2 < 12 && (i2 < i || (i2 == i && k2 < k))
                        && #[trigger] from_edge(ls, i2, k2, x);
                assert(from_edge(ls, i2, k2, x));
            }
            if run_key(x) && segment_of(ls, iv, key_segment(x)) {
                assert(from_edge(ls, i as int, k as int, x));
            }
        }
    }
}

/// The minimal edge segments of `leaves`, each once, in order of axis,
/// start `z`, `y`, `x` and length.
///
/// On every grid line, the starts and ends of all leaf edges on it are its
/// breakpoints; a minimal segment joins two consecutive breakpoints inside
/// one leaf edge.
pub fn enumerate_segments(leaves: &[(u32, CellKey)]) -> (r: Vec<EdgeSegmentKey>)
    requires
        forall|i: int| 0 <= i < leaves@.len() ==> (#[trigger] leaves@[i]).1.fits(),
    ensures
        forall|a: int, b: int|
            0 <= a < b < r@.len() ==> key_lt(
                segment_key(#[trigger] r@[a]),
                segment_key(#[trigger] r@[b]),
            ),
        forall|seg: EdgeSegmentKey| #[trigger] r@.contains(seg) <==> is_leaf_segment(leaves@, seg),
{
    let bp = collect_breakpoints(leaves);
    let mut keys: Vec<SortKey> = Vec::new();
    let mut i: usize = 0;
    while i < leaves.len()
        invariant
            i <= leaves@.len(),
            forall|i: int| 0 <= i < leaves@.len() ==> (#[trigger] leaves@[i]).1.fits(),
            breakpoint_set(leaves@, bp@),
            strictly_sorted(keys@),
            forall|x: SortKey| #[trigger] keys@.contains(x) <==> segments_before(leaves@, i as int, 0, x),
        decreases leaves@.len() - i,
    {
        let mut k: usize = 0;
        while k < 12
            invariant
                i < leaves@.len(),
                k <= 12,
                leaves@[i as int].1.fits(),
                breakpoint_set(leaves@, bp@),
                strictly_sorted(keys@),
                forall|x: SortKey| #[trigger]
                    keys@.contains(x) <==> segments_before(leaves@, i as int, k as int, x),
            decreases 12 - k,
        {
            add_edge_segments(leaves, &bp, &mut keys, i, k);
            k += 1;
        }
        proof {
            assert forall|x: SortKey| #[trigger]
                keys@.contains(x) <==> segments_before(leaves@, i + 1, 0, x) by {
                if segments_before(leaves@, i + 1, 0, x) {
                    let (i2, k2) = choose|i2: int, k2: int|
                        0 <= i2 < leaves@.len() && 0 <= k2 < 12 && (i2 < i + 1 || (i2 == i + 1
                            && k2 < 0)) && #[trigger] from_edge(leaves@, i2, k2, x);
                    assert(segments_before(leaves@, i as int, 12, x));
                }
                if segments_before(leaves@, i as int, 12, x) {
                    let (i2, k2) = choose|i2: int, k2: int|
                        0 <= i2 < leaves@.len() && 0 <= k2 < 12 && (i2 < i || (i2 == i && k2
                            < 12)) && #[trigger] from_edge(leaves@, i2, k2, x);
                    assert(from_edge(leaves@, i2, k2, x));
                }
            }
        }
        i += 1;
    }
    proof {
        assert forall|a: int| 0 <= a < keys@.len() implies run_key(#[trigger] keys@[a]) by {
            let x = keys@[a];
            assert(keys@.contains(x));
            let (i2, k2) = choose|i2: int, k2: int|
                0 <= i2 < leaves@.len() && 0 <= k2 < 12 && (i2 < leaves@.len() || (i2
                    == leaves@.len() && k2 < 0)) && #[trigger] from_edge(leaves@, i2, k2, x);
        }
    }
    let mut r: Vec<EdgeSegmentKey> = Vec::new();
    let mut j: usize = 0;
    while j < keys.len()
        invariant
            forall|a: int| 0 <= a < keys@.len() ==> run_key(#[trigger] keys@[a]),
            j <= keys@.len(),
            r@.len() == j,
            forall|a: int| 0 <= a < j ==> #[trigger] r@[a] == key_segment(keys@[a]),
        decreases keys@.len() - j,
    {
        let x = keys[j];
        r.push(EdgeSegmentKey { axis: x.0 as u8, start: CornerKey { x: x.3, y: x.2, z: x.1 }, length: x.4 });
        j += 1;
    }
    proof {
        assert forall|a: int| 0 <= a < r@.len() implies segment_key(#[trigger] r@[a]) == keys@[a] by {}
        assert forall|seg: EdgeSegmentKey| #[trigger] r@.contains(seg) <==> is_leaf_segment(
            leaves@,
            seg,
        ) by {
            let x = segment_key(seg);
            assert(key_segment(x) == seg);
            if r@.contains(seg) {
                let w = choose|w: int| 0 <= w < r@.len() && r@[w] == seg;
                assert(keys@[w] == x);
                assert(keys@.contains(x));
                let (i2, k2) = choose|i2: int, k2: int|
                    0 <= i2 < leaves@.len() && 0 <= k2 < 12 && (i2 < leaves@.len() || (i2
                        == leaves@.len() && k2 < 0)) && #[trigger] from_edge(leaves@, i2, k2, x);
                assert(segment_of(leaves@, leaf_interval(leaves@[i2].1, k2), seg));
            }
            if is_leaf_segment(leaves@, seg) {
                let (i2, k2) = choose|i2: int, k2: int|
                    0 <= i2 < leaves@.len() && 0 <= k2 < 12 && segment_of(
                        leaves@,
                        #[trigger] leaf_interval(leaves@[i2].1, k2),
                        seg,
                    );
                assert(from_edge(leaves@, i2, k2, x));
                assert(segments_before(leaves@, leaves@.len() as int, 0, x));
                assert(keys@.contains(x));
                let w = choose|w: int| 0 <= w < keys@.len() && keys@[w] == x;
                assert(r@[w] == seg);
            }
        }
    }
    r
}

/// The greatest breakpoint of `line` in `floor..=t`, or `floor`.
pub open spec fn breakpoint_at_or_below(
    leaves: Seq<(u32, CellKey)>,
    line: EdgeLineKey,
    t: int,
    floor: int,
) -> int
    decreases t - floor,
{
    if t <= floor || is_breakpoint(leaves, line, t) {
        t
    } else {
        breakpoint_at_or_below(leaves, line, t - 1, floor)
    }
}

/// The least breakpoint of `line` in `t + 1..=ceiling`, or `ceiling`.
pub open spec fn breakpoint_above(leaves: Seq<(u32, CellKey)>, line: EdgeLineKey, t: int, ceiling: int) -> int
    decreases ceiling - t,
{
    if t + 1 >= ceiling || is_breakpoint(leaves, line, t + 1) {
        t + 1
    } else {
        breakpoint_above(leaves, line, t + 1, ceiling)
    }
}

proof fn lemma_breakpoint_at_or_below(leaves: Seq<(u32, CellKey)>, line: EdgeLineKey, t: int, floor: int)
    requires
        floor <= t,
        is_breakpoint(leaves, line, floor),
    ensures
        floor <= breakpoint_at_or_below(leaves, line, t, floor) <= t,
        is_breakpoint(leaves, line, breakpoint_at_or_below(leaves, line, t, floor)),
        forall|b: int|
            breakpoint_at_or_below(leaves, line, t, floor) < b <= t ==> !#[trigger] is_breakpoint(
                leaves,
                line,
                b,
            ),
    decreases t - floor,
{
    if !(t <= floor || is_breakpoint(leaves, line, t)) {
        lemma_breakpoint_at_or_below(leaves, line, t - 1, floor);
    }
}

proof fn lemma_breakpoint_above(leaves: Seq<(u32, CellKey)>, line: EdgeLineKey, t: int, ceiling: int)
    requires
        t < ceiling,
        is_breakpoint(leaves, line, ceiling),
    ensures
        t < breakpoint_above(leaves, line, t, ceiling) <= ceiling,
        is_breakpoint(leaves, line, breakpoint_above(leaves, line, t, ceiling)),
        forall|b: int|
            t < b < breakpoint_above(leaves, line, t, ceiling) ==> !#[trigger] is_breakpoint(
                leaves,
                line,
                b,
            ),
    decreases ceiling - t,
{
    if !(t + 1 >= ceiling || is_breakpoint(leaves, line, t + 1)) {
        lemma_breakpoint_above(leaves, line, t + 1, ceiling);
    }
}

/// The minimal segments of a leaf edge partition it: every grid step
/// `t..t + 1` of the edge lies in exactly one of them.
pub proof fn lemma_segments_partition_edges(leaves: Seq<(u32, CellKey)>, i: int, k: int, t: int)
    requires
        0 <= i < leaves.len(),
        0 <= k < 12,
        leaf_interval(leaves[i].1, k).start <= t < leaf_interval(leaves[i].1, k).end,
    ensures
        exists|s: int, f: int|
            #[trigger] splits(leaves, leaf_interval(leaves[i].1, k), s, f) && s <= t < f,
        forall|s1: int, f1: int, s2: int, f2: int|
            #[trigger] splits(leaves, leaf_interval(leaves[i].1, k), s1, f1) && s1 <= t < f1
                && #[trigger] splits(leaves, leaf_interval(leaves[i].1, k), s2, f2) && s2 <= t < f2
                ==> s1 == s2 && f1 == f2,
{
    let iv = leaf_interval(leaves[i].1, k);
    let line = iv.line;
    assert(is_breakpoint(leaves, line, iv.start as int));
    assert(is_breakpoint(leaves, line, iv.end as int));
    lemma_breakpoint_at_or_below(leaves, line, t, iv.start as int);
    lemma_breakpoint_above(leaves, line, t, iv.end as int);
    let s = breakpoint_at_or_below(leaves, line, t, iv.start as int);
    let f = breakpoint_above(leaves, line, t, iv.end as int);
    assert forall|b: int| s < b < f implies !#[trigger] is_breakpoint(leaves, line, b) by {}
    assert(splits(leaves, iv, s, f));
    assert forall|s1: int, f1: int, s2: int, f2: int|
        #[trigger] splits(leaves, iv, s1, f1) && s1 <= t < f1 && #[trigger] splits(leaves, iv, s2, f2)
            && s2 <= t < f2 implies s1 == s2 && f1 == f2 by {
        if s1 < s2 {
            assert(is_breakpoint(leaves, line, s2));
        } else if s2 < s1 {
            assert(is_breakpoint(leaves, line, s1));
        }
        if f1 < f2 {
            assert(is_breakpoint(leaves, line, f1));
        } else if f2 < f1 {
            assert(is_breakpoint(leaves, line, f2));
        }
    }
}

/// Leaves that share a grid line see the same minimal segments on it: a
/// minimal segment of one leaf edge that overlaps another leaf edge on the
/// same line is a minimal segment of that edge too.
pub proof fn lemma_segments_are_shared(
    leaves: Seq<(u32, CellKey)>,
    i1: int,
    k1: int,
    i2: int,
    k2: int,
    s: int,
    f: int,
)
    requires
        0 <= i1 < leaves.len(),
        0 <= k1 < 12,
        0 <= i2 < leaves.len(),
        0 <= k2 < 12,
        leaf_interval(leaves[i1].1, k1).line == leaf_interval(leaves[i2].1, k2).line,
        splits(leaves, leaf_interval(leaves[i1].1, k1), s, f),
        s < leaf_interval(leaves[i2].1, k2).end,
        leaf_interval(leaves[i2].1, k2).start < f,
    ensures
        splits(leaves, leaf_interval(leaves[i2].1, k2), s, f),
{
    let iv2 = leaf_interval(leaves[i2].1, k2);
    let line = iv2.line;
    assert(is_breakpoint(leaves, line, iv2.start as int));
    assert(is_breakpoint(leaves, line, iv2.end as int));
}

/// The segment of `length` steps from `start` along `line`.
pub open spec fn segment_on(line: EdgeLineKey, start: int, length: int) -> EdgeSegmentKey {
    let corner = if line.axis == 0 {
        CornerKey { x: start as u32, y: line.fixed_u, z: line.fixed_v }
    } else if line.axis == 1 {
        CornerKey { x: line.fixed_u, y: start as u32, z: line.fixed_v }
    } else {
        CornerKey { x: line.fixed_u, y: line.fixed_v, z: start as u32 }
    };
    EdgeSegmentKey { axis: line.axis, start: corner, length: length as u32 }
}

/// Every edge of every leaf is covered by minimal segments: for each of
/// the twelve edges of a leaf (along any axis, at the low or high end of
/// each of the two other axes), every grid step `t..t + 1` of it lies in a
/// minimal segment on that edge's line. `enumerate_segments` returns
/// exactly the minimal segments, so it returns one covering each step.
pub proof fn lemma_every_leaf_edge_is_covered(
    leaves: Seq<(u32, CellKey)>,
    i: int,
    axis: int,
    first_high: bool,
    second_high: bool,
    t: int,
)
    requires
        0 <= i < leaves.len(),
        leaves[i].1.fits(),
        0 <= axis < 3,
        coord(leaves[i].1.origin, axis) <= t < coord(leaves[i].1.origin, axis) + leaves[i].1.span,
    ensures
        exists|seg: EdgeSegmentKey|
            {
                &&& #[trigger] is_leaf_segment(leaves, seg)
                &&& seg.axis == axis
                &&& coord(seg.start, other_axes(axis).0) == coord(
                    leaves[i].1.origin,
                    other_axes(axis).0,
                ) + (if first_high {
                    leaves[i].1.span as int
                } else {
                    0
                })
                &&& coord(seg.start, other_axes(axis).1) == coord(
                    leaves[i].1.origin,
                    other_axes(axis).1,
                ) + (if second_high {
                    leaves[i].1.span as int
                } else {
                    0
                })
                &&& coord(seg.start, axis) <= t < coord(seg.start, axis) + seg.length
            },
{
    let cell = leaves[i].1;
    let k = 4 * axis + (if first_high { 2int } else { 0int }) + (if second_high { 1int } else { 0int });
    let iv = leaf_interval(cell, k);
    assert(k / 4 == axis && (k % 4) / 2 == (if first_high { 1int } else { 0int }) && k % 2 == (if second_high {
        1int
    } else {
        0int
    }));
    lemma_segments_partition_edges(leaves, i, k, t);
    let (s, f) = choose|s: int, f: int| #[trigger] splits(leaves, iv, s, f) && s <= t < f;
    let seg = segment_on(iv.line, s, f - s);
    assert(segment_of(leaves, iv, seg));
    assert(is_leaf_segment(leaves, seg));
}

} // verus!
