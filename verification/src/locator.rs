//! Finding the leaves of an adaptive octree by integer-grid key.
//!
//! A [`LeafLocator`] indexes the leaf cells of a balanced adaptive octree
//! both ways (key to leaf, leaf to key), finds the leaf covering a grid
//! corner, and routes edge segments to the cells around them. Leaves are
//! named by plain `u32` cell ids.

use vstd::prelude::*;
use vstd::arithmetic::power2::{
    lemma2_to64, lemma_pow2_adds, lemma_pow2_pos, lemma_pow2_strictly_increases, lemma_pow2_unfold, pow2,
};

use crate::grid::{
    align_down, component_route_in, coord, incident_corner_keys, incident_corners, is_dyadic,
    lemma_incident_corners_surround_the_segment, other_axes, route,
    CellKey, ComponentRoute, CornerKey, EdgeSegmentKey,
};

verus! {

/// A cell key as a tuple of integers: origin x, y, z, span and depth.
pub open spec fn key_tuple(k: CellKey) -> (u32, u32, u32, u32, u8) {
    (k.origin.x, k.origin.y, k.origin.z, k.span, k.depth)
}

/// The cell key of a tuple.
pub open spec fn tuple_key(t: (u32, u32, u32, u32, u8)) -> CellKey {
    CellKey { origin: CornerKey { x: t.0, y: t.1, z: t.2 }, span: t.3, depth: t.4 }
}

/// Tables hold fewer entries than this, which keeps a hash table's storage
/// far from the sizes at which growing it fails.
pub open spec fn table_bound() -> nat {
    0x100_0000
}

/// A hash table from cell keys to leaf ids.
#[verifier::external_body]
pub struct LeafTable {
    map: hashbrown::HashMap<(u32, u32, u32, u32, u8), u32>,
}

/// What a [`LeafTable`] holds.
pub uninterp spec fn leaf_entries(table: LeafTable) -> Map<(u32, u32, u32, u32, u8), u32>;

/// A hash table from leaf ids to cell keys.
#[verifier::external_body]
pub struct KeyTable {
    map: hashbrown::HashMap<u32, (u32, u32, u32, u32, u8)>,
}

/// What a [`KeyTable`] holds.
pub uninterp spec fn key_entries(table: KeyTable) -> Map<u32, (u32, u32, u32, u32, u8)>;

/// The empty key-to-leaf index.
pub open spec fn no_leaves() -> Map<(u32, u32, u32, u32, u8), u32> {
    Map::empty()
}

/// The empty leaf-to-key index.
pub open spec fn no_keys() -> Map<u32, (u32, u32, u32, u32, u8)> {
    Map::empty()
}

/// An empty table, from `hashbrown::HashMap::new` (which does not
/// allocate).
#[verifier::external_body]
fn leaf_table_new() -> (t: LeafTable)
    ensures
        leaf_entries(t) == no_leaves(),
{
    LeafTable { map: hashbrown::HashMap::new() }
}

/// `hashbrown::HashMap::insert`: the key now maps to the value, every other
/// key keeps its entry. Growing the table panics only on capacity overflow,
/// which the entry bound rules out.
#[verifier::external_body]
fn leaf_table_insert(t: &mut LeafTable, key: (u32, u32, u32, u32, u8), id: u32)
    requires
        leaf_entries(*old(t)).dom().finite(),
        leaf_entries(*old(t)).len() < table_bound(),
    ensures
        leaf_entries(*final(t)) == leaf_entries(*old(t)).insert(key, id),
{
    t.map.insert(key, id);
}

/// `hashbrown::HashMap::get`: the entry of `key`, if any.
#[verifier::external_body]
fn leaf_table_get(t: &LeafTable, key: (u32, u32, u32, u32, u8)) -> (r: Option<u32>)
    ensures
        r == (if leaf_entries(*t).contains_key(key) {
            Some(leaf_entries(*t)[key])
        } else {
            None
        }),
{
    t.map.get(&key).copied()
}

/// An empty table, from `hashbrown::HashMap::new`.
#[verifier::external_body]
fn key_table_new() -> (t: KeyTable)
    ensures
        key_entries(t) == no_keys(),
{
    KeyTable { map: hashbrown::HashMap::new() }
}

/// `hashbrown::HashMap::insert` on a [`KeyTable`].
#[verifier::external_body]
fn key_table_insert(t: &mut KeyTable, id: u32, key: (u32, u32, u32, u32, u8))
    requires
        key_entries(*old(t)).dom().finite(),
        key_entries(*old(t)).len() < table_bound(),
    ensures
        key_entries(*final(t)) == key_entries(*old(t)).insert(id, key),
{
    t.map.insert(id, key);
}

/// `hashbrown::HashMap::get` on a [`KeyTable`].
#[verifier::external_body]
fn key_table_get(t: &KeyTable, id: u32) -> (r: Option<(u32, u32, u32, u32, u8)>)
    ensures
        r == (if key_entries(*t).contains_key(id) {
            Some(key_entries(*t)[id])
        } else {
            None
        }),
{
    t.map.get(&id).copied()
}

/// The base-2 logarithm of `x`, rounded down.
fn floor_log2(x: u32) -> (r: u32)
    requires
        x > 0,
    ensures
        r < 32,
        pow2(r as nat) <= x < pow2((r + 1) as nat),
{
    proof {
        lemma2_to64();
    }
    let mut r: u32 = 0;
    let mut p: u64 = 1;
    while p * 2 <= x as u64
        invariant
            r < 32,
            p == pow2(r as nat),
            p <= x,
            pow2(32) == 0x1_0000_0000,
        decreases 32 - r,
    {
        proof {
            lemma_pow2_unfold((r + 1) as nat);
            if r + 1 >= 32 {
                if r + 1 > 32 {
                    lemma_pow2_strictly_increases(32, (r + 1) as nat);
                }
                assert(false);
            }
        }
        p = p * 2;
        r = r + 1;
    }
    proof {
        lemma_pow2_unfold((r + 1) as nat);
    }
    r
}

/// The key-to-leaf index built from `leaves` in order (later entries win).
pub open spec fn leaf_index(leaves: Seq<(u32, CellKey)>) -> Map<(u32, u32, u32, u32, u8), u32>
    decreases leaves.len(),
{
    if leaves.len() == 0 {
        Map::empty()
    } else {
        leaf_index(leaves.drop_last()).insert(key_tuple(leaves.last().1), leaves.last().0)
    }
}

/// The leaf-to-key index built from `leaves` in order (later entries win).
pub open spec fn key_index(leaves: Seq<(u32, CellKey)>) -> Map<u32, (u32, u32, u32, u32, u8)>
    decreases leaves.len(),
{
    if leaves.len() == 0 {
        Map::empty()
    } else {
        key_index(leaves.drop_last()).insert(leaves.last().0, key_tuple(leaves.last().1))
    }
}

proof fn lemma_index_sizes(leaves: Seq<(u32, CellKey)>)
    ensures
        leaf_index(leaves).dom().finite(),
        leaf_index(leaves).len() <= leaves.len(),
        key_index(leaves).dom().finite(),
        key_index(leaves).len() <= leaves.len(),
    decreases leaves.len(),
{
    if leaves.len() > 0 {
        lemma_index_sizes(leaves.drop_last());
    }
}

/// `v` rounded down to a multiple of `span`.
pub open spec fn aligned(v: int, span: int) -> int {
    v - v % span
}

/// The key of the cell of span `2^k` (at depth `levels - k`) whose origin
/// is `corner` rounded down.
pub open spec fn covering_key(corner: CornerKey, k: nat, levels: nat) -> (u32, u32, u32, u32, u8) {
    let span = pow2(k) as int;
    (
        aligned(corner.x as int, span) as u32,
        aligned(corner.y as int, span) as u32,
        aligned(corner.z as int, span) as u32,
        span as u32,
        (levels - k) as u8,
    )
}

/// The leaf covering `corner`: the first of the aligned cells of span
/// `2^k`, `2^(k+1)`, ... up to the root span `2^levels` that is a leaf.
pub open spec fn covering(
    index: Map<(u32, u32, u32, u32, u8), u32>,
    corner: CornerKey,
    k: nat,
    levels: nat,
) -> Option<u32>
    decreases levels - k,
{
    let key = covering_key(corner, k, levels);
    if index.contains_key(key) {
        Some(index[key])
    } else if k >= levels {
        None
    } else {
        covering(index, corner, k + 1, levels)
    }
}

/// The number of levels of a dyadic resolution: `resolution == 2^levels`.
pub open spec fn levels_of(resolution: u32) -> nat {
    choose|k: nat| k < 32 && pow2(k) == resolution
}

/// Leaf ids and keys of a balanced adaptive octree over a grid of
/// `resolution` finest steps per axis.
pub struct LeafLocator {
    resolution: u32,
    leaves: LeafTable,
    keys: KeyTable,
}

impl LeafLocator {
    /// The grid resolution.
    pub closed spec fn resolution_spec(&self) -> u32 {
        self.resolution
    }

    /// The key-to-leaf index.
    pub closed spec fn leaves_spec(&self) -> Map<(u32, u32, u32, u32, u8), u32> {
        leaf_entries(self.leaves)
    }

    /// The leaf-to-key index.
    pub closed spec fn keys_spec(&self) -> Map<u32, (u32, u32, u32, u32, u8)> {
        key_entries(self.keys)
    }

    /// Indexes `leaves` both ways.
    pub fn new(leaves: &[(u32, CellKey)], resolution: u32) -> (r: Self)
        requires
            leaves@.len() < table_bound(),
        ensures
            r.resolution_spec() == resolution,
            r.leaves_spec() == leaf_index(leaves@),
            r.keys_spec() == key_index(leaves@),
    {
        let mut by_key = leaf_table_new();
        let mut keys = key_table_new();
        let mut i: usize = 0;
        while i < leaves.len()
            invariant
                i <= leaves@.len(),
                leaves@.len() < table_bound(),
                leaf_entries(by_key) == leaf_index(leaves@.take(i as int)),
                key_entries(keys) == key_index(leaves@.take(i as int)),
            decreases leaves.len() - i,
        {
            proof {
                assert(leaves@.take(i as int + 1).drop_last() =~= leaves@.take(i as int));
                lemma_index_sizes(leaves@.take(i as int));
            }
            let (id, key) = leaves[i];
            leaf_table_insert(
                &mut by_key,
                (key.origin.x, key.origin.y, key.origin.z, key.span, key.depth),
                id,
            );
            key_table_insert(
                &mut keys,
                id,
                (key.origin.x, key.origin.y, key.origin.z, key.span, key.depth),
            );
            i += 1;
        }
        proof {
            assert(leaves@.take(leaves@.len() as int) =~= leaves@);
        }
        LeafLocator { resolution, leaves: by_key, keys }
    }

    /// The key of leaf `id`.
    pub fn key(&self, id: u32) -> (r: CellKey)
        requires
            self.keys_spec().contains_key(id),
        ensures
            r == tuple_key(self.keys_spec()[id]),
    {
        let t = key_table_get(&self.keys, id).unwrap();
        CellKey { origin: CornerKey { x: t.0, y: t.1, z: t.2 }, span: t.3, depth: t.4 }
    }

    /// The key of leaf `id`, or `None` when `id` is not a leaf.
    pub fn find_key(&self, id: u32) -> (r: Option<CellKey>)
        ensures
            r == (if self.keys_spec().contains_key(id) {
                Some(tuple_key(self.keys_spec()[id]))
            } else {
                None
            }),
    {
        match key_table_get(&self.keys, id) {
            Some(t) => Some(CellKey { origin: CornerKey { x: t.0, y: t.1, z: t.2 }, span: t.3, depth: t.4 }),
            None => None,
        }
    }

    /// The leaf covering grid corner `coord`: the finest aligned cell that
    /// is a leaf, searching spans `1, 2, 4, ...` up to the resolution.
    pub fn find_covering(&self, coord: CornerKey) -> (r: Option<u32>)
        requires
            is_dyadic(self.resolution_spec()),
        ensures
            r == covering(self.leaves_spec(), coord, 0, levels_of(self.resolution_spec())),
    {
        let ghost levels = levels_of(self.resolution);
        proof {
            lemma_pow2_pos(levels);
        }
        let res_log = floor_log2(self.resolution);
        proof {
            if res_log < levels {
                lemma_pow2_strictly_increases((res_log + 1) as nat, levels);
            } else if res_log > levels {
                lemma_pow2_strictly_increases(levels, res_log as nat);
            }
            assert(res_log == levels);
        }
        let mut span: u32 = 1;
        let mut k: u32 = 0;
        proof {
            lemma2_to64();
        }
        loop
            invariant
                k <= levels,
                levels < 32,
                levels == levels_of(self.resolution_spec()),
                res_log == levels,
                span == pow2(k as nat),
                self.resolution == pow2(levels),
                covering(self.leaves_spec(), coord, 0, levels) == covering(
                    self.leaves_spec(),
                    coord,
                    k as nat,
                    levels,
                ),
            decreases levels - k,
        {
            proof {
                lemma_pow2_pos(k as nat);
            }
            let ghost dyadic_witness = k as nat;
            proof {
                assert(is_dyadic(span));
            }
            let key = (
                align_down(coord.x, span),
                align_down(coord.y, span),
                align_down(coord.z, span),
                span,
                (res_log - k) as u8,
            );
            proof {
                assert(key == covering_key(coord, k as nat, levels));
                assert(covering(self.leaves_spec(), coord, k as nat, levels) == if self.leaves_spec().contains_key(key) {
                    Some(self.leaves_spec()[key])
                } else if k as nat >= levels {
                    None
                } else {
                    covering(self.leaves_spec(), coord, (k + 1) as nat, levels)
                });
            }
            if let Some(id) = leaf_table_get(&self.leaves, key) {
                return Some(id);
            }
            if span >= self.resolution {
                proof {
                    if k < levels {
                        lemma_pow2_strictly_increases(k as nat, levels);
                    }
                }
                return None;
            }
            proof {
                if k >= levels {
                    assert(span >= self.resolution);
                }
                lemma_pow2_adds(k as nat, 1);
                lemma2_to64();
            }
            span = span * 2;
            k = k + 1;
        }
    }

    /// The four leaves around an interior edge segment in cyclic order;
    /// `Ok(None)` when the segment lies on the root boundary, `Err(())` when
    /// some corner has no covering leaf (an incomplete partition).
    pub fn incident_leaves(&self, segment: EdgeSegmentKey) -> (r: Result<Option<[u32; 4]>, ()>)
        requires
            is_dyadic(self.resolution_spec()),
        ensures
            match incident_corner_keys(segment, self.resolution_spec()) {
                None => r == Ok::<Option<[u32; 4]>, ()>(None),
                Some(corners) => if forall|i: int|
                    0 <= i < 4 ==> #[trigger] covering(
                        self.leaves_spec(),
                        corners[i],
                        0,
                        levels_of(self.resolution_spec()),
                    ) is Some {
                    r matches Ok(Some(ids)) && forall|i: int|
                        0 <= i < 4 ==> Some(#[trigger] ids@[i]) == covering(
                            self.leaves_spec(),
                            corners[i],
                            0,
                            levels_of(self.resolution_spec()),
                        )
                } else {
                    r == Err::<Option<[u32; 4]>, ()>(())
                },
            },
            segment.axis < 3 && ({
                let (ua, va) = other_axes(segment.axis as int);
                let u = coord(segment.start, ua);
                let v = coord(segment.start, va);
                u == 0 || v == 0 || u >= self.resolution_spec() || v >= self.resolution_spec()
            }) ==> r == Ok::<Option<[u32; 4]>, ()>(None),
    {
        proof {
            if segment.axis < 3 {
                lemma_incident_corners_surround_the_segment(segment, self.resolution_spec());
            }
        }
        let corners = match incident_corners(segment, self.resolution) {
            Some(corners) => corners,
            None => {
                return Ok(None);
            },
        };
        let ghost levels = levels_of(self.resolution);
        assert(incident_corner_keys(segment, self.resolution_spec()) == Some(corners@));
        let mut ids: [u32; 4] = [0u32; 4];
        let mut i: usize = 0;
        while i < 4
            invariant
                i <= 4,
                is_dyadic(self.resolution_spec()),
                levels == levels_of(self.resolution_spec()),
                incident_corner_keys(segment, self.resolution_spec()) == Some(corners@),
                forall|j: int|
                    0 <= j < i ==> Some(#[trigger] ids@[j]) == covering(
                        self.leaves_spec(),
                        corners@[j],
                        0,
                        levels,
                    ),
            decreases 4 - i,
        {
            match self.find_covering(corners[i]) {
                Some(id) => {
                    ids[i] = id;
                },
                None => {
                    proof {
                        assert(covering(self.leaves_spec(), corners@[i as int], 0, levels) is None);
                    }
                    return Err(());
                },
            }
            i += 1;
        }
        proof {
            assert forall|j: int| 0 <= j < 4 implies #[trigger] covering(
                self.leaves_spec(),
                corners@[j],
                0,
                levels,
            ) is Some by {
                assert(Some(ids@[j]) == covering(self.leaves_spec(), corners@[j], 0, levels));
            }
        }
        Ok(Some(ids))
    }

    /// How `segment` is routed through the component structure of leaf
    /// `leaf`.
    pub fn component_route(&self, leaf: u32, segment: EdgeSegmentKey) -> (r: ComponentRoute)
        requires
            self.keys_spec().contains_key(leaf),
            tuple_key(self.keys_spec()[leaf]).fits(),
        ensures
            r == route(tuple_key(self.keys_spec()[leaf]), segment),
    {
        let cell = self.key(leaf);
        component_route_in(cell, segment)
    }
}

} // verus!
