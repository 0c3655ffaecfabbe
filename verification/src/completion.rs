//! The decision step of transition completion.
//!
//! After balancing, every minimal edge segment along which the field
//! changes sign must see four leaves around it, each with a usable surface
//! component, and the four components must form a cycle of distinct
//! vertices. Leaves that fail this are refined (when they can be) and the
//! step is repeated.
use vstd::prelude::*;

use crate::balance::refine_key;
use crate::cyclic::{cyclic_distinct, distinct_cycle};
use crate::grid::{CellKey, ComponentRoute};
use crate::refinement::RefinementDecision;
use crate::topology::CellTopology;
use crate::locator::{tuple_key, LeafLocator};
use crate::sorted::{insert_sorted, key_lt, strictly_sorted, SortKey};

verus! {

/// What one edge segment reports to a completion step.
#[derive(Copy, Clone, Debug, Eq, PartialEq)]
pub struct SegmentEvidence {
    /// The field changes sign between the segment's end samples.
    pub crossing: bool,
    /// The leaves around the segment, as [`LeafLocator::incident_leaves`]
    /// reports them.
    pub incident: Result<Option<[u32; 4]>, ()>,
    /// For each incident leaf, its usable component token (leaf id and
    /// component), if it has one.
    pub tokens: [Option<(u32, u8)>; 4],
}

/// The outcome of one completion step.
#[derive(Clone, Debug, Eq, PartialEq)]
pub enum CompletionStep {
    /// Every crossing segment is closed by four usable, distinct tokens.
    Complete,
    /// These leaves must be refined first, ordered by key then id, each
    /// once.
    Refine(Vec<(CellKey, u32)>),
    /// Some crossing segment cannot be closed: the partition around it is
    /// incomplete, or a leaf that would need refinement cannot be refined.
    Invalid,
}

/// A component token as one integer.
pub open spec fn token_code(t: (u32, u8)) -> u64 {
    (t.0 * 256 + t.1) as u64
}

/// The four tokens, all present, close a cycle of distinct vertices.
pub open spec fn tokens_close(tokens: [Option<(u32, u8)>; 4]) -> bool {
    &&& forall|s: int| 0 <= s < 4 ==> (#[trigger] tokens[s]) is Some
    &&& distinct_cycle(Seq::new(4, |s: int| token_code(tokens[s]->0))) is Some
}

/// Segment evidence `ev` asks for the leaf in slot `slot` to be refined:
/// the segment crosses, has four incident leaves, and that leaf has no
/// usable token or the four tokens do not close.
pub open spec fn flags(ev: SegmentEvidence, slot: int) -> bool {
    &&& ev.crossing
    &&& ev.incident matches Ok(Some(_))
    &&& (ev.tokens[slot] is None || (forall|s: int| 0 <= s < 4 ==> (#[trigger] ev.tokens[s]) is Some)
        && !tokens_close(ev.tokens))
}

/// The leaf in slot `slot` of segment evidence `ev`.
pub open spec fn flagged_leaf(ev: SegmentEvidence, slot: int) -> u32 {
    ev.incident->Ok_0->Some_0[slot]
}

/// Leaf `id` is known and above `max_depth`'s level, so it can be refined.
pub open spec fn refinable(keys: Map<u32, (u32, u32, u32, u32, u8)>, id: u32, max_depth: u8) -> bool {
    keys.contains_key(id) && tuple_key(keys[id]).depth < max_depth
}

/// Some crossing segment has no complete set of incident leaves.
pub open spec fn partition_incomplete(evidence: Seq<SegmentEvidence>) -> bool {
    exists|e: int| 0 <= e < evidence.len() && (#[trigger] evidence[e]).crossing && evidence[e].incident is Err
}

/// Slot `s2` of segment `e2` comes before slot `slot` of segment `e`.
pub open spec fn slot_done(e: int, slot: int, e2: int, s2: int) -> bool {
    e2 < e || (e2 == e && s2 < slot)
}

/// `x` is the refinement key of a refinable leaf flagged in a slot before
/// slot `slot` of segment `e`.
pub open spec fn flagged_upto(
    evidence: Seq<SegmentEvidence>,
    keys: Map<u32, (u32, u32, u32, u32, u8)>,
    max_depth: u8,
    e: int,
    slot: int,
    x: SortKey,
) -> bool {
    exists|e2: int, s2: int|
        0 <= e2 < evidence.len() && 0 <= s2 < 4 && slot_done(e, slot, e2, s2) && #[trigger] flags(
            evidence[e2],
            s2,
        ) && refinable(keys, flagged_leaf(evidence[e2], s2), max_depth) && x == refine_key(
            (tuple_key(keys[flagged_leaf(evidence[e2], s2)]), flagged_leaf(evidence[e2], s2)),
        )
}

/// Some slot before slot `slot` of segment `e` flags a leaf that cannot be
/// refined.
pub open spec fn stuck_upto(
    evidence: Seq<SegmentEvidence>,
    keys: Map<u32, (u32, u32, u32, u32, u8)>,
    max_depth: u8,
    e: int,
    slot: int,
) -> bool {
    exists|e2: int, s2: int|
        0 <= e2 < evidence.len() && 0 <= s2 < 4 && slot_done(e, slot, e2, s2) && #[trigger] flags(
            evidence[e2],
            s2,
        ) && !refinable(keys, flagged_leaf(evidence[e2], s2), max_depth)
}

/// Some leaf is flagged and can be refined.
pub open spec fn any_flagged(
    evidence: Seq<SegmentEvidence>,
    keys: Map<u32, (u32, u32, u32, u32, u8)>,
    max_depth: u8,
) -> bool {
    exists|x: SortKey| #[trigger] flagged_upto(evidence, keys, max_depth, evidence.len() as int, 0, x)
}

/// Whether four tokens close a cycle of distinct vertices.
fn close(tokens: [Option<(u32, u8)>; 4]) -> (r: bool)
    ensures
        r == tokens_close(tokens),
{
    if tokens[0].is_none() || tokens[1].is_none() || tokens[2].is_none() || tokens[3].is_none() {
        proof {
            assert(!tokens_close(tokens)) by {
                if tokens[0] is None {
                    assert(!(tokens[0] is Some));
                }
            }
        }
        return false;
    }
    let mut codes: [u64; 4] = [0u64; 4];
    let mut s: usize = 0;
    while s < 4
        invariant
            s <= 4,
            forall|j: int| 0 <= j < 4 ==> (#[trigger] tokens[j]) is Some,
            forall|j: int| 0 <= j < s ==> codes@[j] == token_code(#[trigger] tokens[j]->0),
        decreases 4 - s,
    {
        let t = tokens[s].unwrap();
        codes[s] = (t.0 as u64) * 256 + (t.1 as u64);
        s += 1;
    }
    proof {
        assert(codes@ =~= Seq::new(4, |j: int| token_code(tokens[j]->0)));
        broadcast use vstd::laws_eq::group_laws_eq;
    }
    cyclic_distinct(codes).is_ok()
}

/// Flags the leaves of one crossing segment with four incident leaves.
fn flag_segment(
    evidence: &[SegmentEvidence],
    e: usize,
    ids: [u32; 4],
    locator: &LeafLocator,
    max_depth: u8,
    keys: &mut Vec<SortKey>,
    stuck: &mut bool,
)
    requires
        e < evidence@.len(),
        evidence@[e as int].crossing,
        evidence@[e as int].incident == Ok::<Option<[u32; 4]>, ()>(Some(ids)),
        strictly_sorted(old(keys)@),
        forall|x: SortKey| #[trigger]
            old(keys)@.contains(x) <==> flagged_upto(
                evidence@,
                locator.keys_spec(),
                max_depth,
                e as int,
                0,
                x,
            ),
        *old(stuck) == stuck_upto(evidence@, locator.keys_spec(), max_depth, e as int, 0),
    ensures
        strictly_sorted(final(keys)@),
        forall|x: SortKey| #[trigger]
            final(keys)@.contains(x) <==> flagged_upto(
                evidence@,
                locator.keys_spec(),
                max_depth,
                e + 1,
                0,
                x,
            ),
        *final(stuck) == stuck_upto(evidence@, locator.keys_spec(), max_depth, e + 1, 0),
{
    let ghost ev = evidence@;
    let ghost km = locator.keys_spec();
    let tokens = evidence[e].tokens;
    let all = tokens[0].is_some() && tokens[1].is_some() && tokens[2].is_some() && tokens[3].is_some();
    let closes = close(tokens);
    proof {
        assert(all == forall|s: int| 0 <= s < 4 ==> (#[trigger] tokens[s]) is Some) by {
            if !all {
                if tokens[0] is None {
                    assert(!(tokens[0] is Some));
                } else if tokens[1] is None {
                    assert(!(tokens[1] is Some));
                } else if tokens[2] is None {
                    assert(!(tokens[2] is Some));
                } else {
                    assert(!(tokens[3] is Some));
                }
            }
        }
    }
    let mut slot: usize = 0;
    while slot < 4
        invariant
            slot <= 4,
            ev == evidence@,
            km == locator.keys_spec(),
            e < ev.len(),
            ev[e as int].crossing,
            ev[e as int].incident == Ok::<Option<[u32; 4]>, ()>(Some(ids)),
            tokens == ev[e as int].tokens,
            all == forall|s: int| 0 <= s < 4 ==> (#[trigger] tokens[s]) is Some,
            closes == tokens_close(tokens),
            strictly_sorted(keys@),
            forall|x: SortKey| #[trigger]
                keys@.contains(x) <==> flagged_upto(ev, km, max_depth, e as int, slot as int, x),
            *stuck == stuck_upto(ev, km, max_depth, e as int, slot as int),
        decreases 4 - slot,
    {
        let flagged = tokens[slot].is_none() || (all && !closes);
        proof {
            assert(flagged == flags(ev[e as int], slot as int));
            assert(flagged_leaf(ev[e as int], slot as int) == ids[slot as int]);
        }
        let ghost was_stuck = *stuck;
        let mut added: Option<SortKey> = None;
        if flagged {
            let id = ids[slot];
            match locator.find_key(id) {
                Some(key) => {
                    if key.depth < max_depth {
                        let x: SortKey = (
                            key.origin.x,
                            key.origin.y,
                            key.origin.z,
                            key.span,
                            key.depth as u32,
                            id,
                        );
                        insert_sorted(keys, x);
                        added = Some(x);
                    } else {
                        *stuck = true;
                    }
                },
                None => {
                    *stuck = true;
                },
            }
        }
        proof {
            assert forall|x: SortKey| #[trigger]
                keys@.contains(x) <==> flagged_upto(ev, km, max_depth, e as int, slot + 1, x) by {
                if flagged_upto(ev, km, max_depth, e as int, slot + 1, x) {
                    let w = choose|e2: int, s2: int|
                        0 <= e2 < ev.len() && 0 <= s2 < 4 && slot_done(e as int, slot + 1, e2, s2)
                            && #[trigger] flags(ev[e2], s2) && refinable(
                            km,
                            flagged_leaf(ev[e2], s2),
                            max_depth,
                        ) && x == refine_key(
                            (tuple_key(km[flagged_leaf(ev[e2], s2)]), flagged_leaf(ev[e2], s2)),
                        );
                    if !(w.0 == e && w.1 == slot) {
                        assert(flagged_upto(ev, km, max_depth, e as int, slot as int, x));
                    }
                }
                if flagged_upto(ev, km, max_depth, e as int, slot as int, x) {
                    let w = choose|e2: int, s2: int|
                        0 <= e2 < ev.len() && 0 <= s2 < 4 && slot_done(e as int, slot as int, e2, s2)
                            && #[trigger] flags(ev[e2], s2) && refinable(
                            km,
                            flagged_leaf(ev[e2], s2),
                            max_depth,
                        ) && x == refine_key(
                            (tuple_key(km[flagged_leaf(ev[e2], s2)]), flagged_leaf(ev[e2], s2)),
                        );
                    assert(slot_done(e as int, slot + 1, w.0, w.1));
                }
                if added == Some(x) {
                    assert(flags(ev[e as int], slot as int));
                    assert(slot_done(e as int, slot + 1, e as int, slot as int));
                }
            }
            if stuck_upto(ev, km, max_depth, e as int, slot + 1) {
                let w = choose|e2: int, s2: int|
                    0 <= e2 < ev.len() && 0 <= s2 < 4 && slot_done(e as int, slot + 1, e2, s2)
                        && #[trigger] flags(ev[e2], s2) && !refinable(km, flagged_leaf(ev[e2], s2), max_depth);
                if !(w.0 == e && w.1 == slot) {
                    assert(stuck_upto(ev, km, max_depth, e as int, slot as int));
                }
            }
            if stuck_upto(ev, km, max_depth, e as int, slot as int) {
                let w = choose|e2: int, s2: int|
                    0 <= e2 < ev.len() && 0 <= s2 < 4 && slot_done(e as int, slot as int, e2, s2)
                        && #[trigger] flags(ev[e2], s2) && !refinable(km, flagged_leaf(ev[e2], s2), max_depth);
                assert(slot_done(e as int, slot + 1, w.0, w.1));
            }
            if *stuck && !was_stuck {
                assert(flags(ev[e as int], slot as int));
                assert(slot_done(e as int, slot + 1, e as int, slot as int));
            }
        }
        slot += 1;
    }
    proof {
        assert forall|x: SortKey| #[trigger]
            keys@.contains(x) <==> flagged_upto(ev, km, max_depth, e + 1, 0, x) by {
            if flagged_upto(ev, km, max_depth, e + 1, 0, x) {
                let w = choose|e2: int, s2: int|
                    0 <= e2 < ev.len() && 0 <= s2 < 4 && slot_done(e + 1, 0, e2, s2)
                        && #[trigger] flags(ev[e2], s2) && refinable(
                        km,
                        flagged_leaf(ev[e2], s2),
                        max_depth,
                    ) && x == refine_key(
                        (tuple_key(km[flagged_leaf(ev[e2], s2)]), flagged_leaf(ev[e2], s2)),
                    );
                assert(slot_done(e as int, 4, w.0, w.1));
            }
            if flagged_upto(ev, km, max_depth, e as int, 4, x) {
                let w = choose|e2: int, s2: int|
                    0 <= e2 < ev.len() && 0 <= s2 < 4 && slot_done(e as int, 4, e2, s2)
                        && #[trigger] flags(ev[e2], s2) && refinable(
                        km,
                        flagged_leaf(ev[e2], s2),
                        max_depth,
                    ) && x == refine_key(
                        (tuple_key(km[flagged_leaf(ev[e2], s2)]), flagged_leaf(ev[e2], s2)),
                    );
                assert(slot_done(e + 1, 0, w.0, w.1));
            }
        }
        if stuck_upto(ev, km, max_depth, e + 1, 0) {
            let w = choose|e2: int, s2: int|
                0 <= e2 < ev.len() && 0 <= s2 < 4 && slot_done(e + 1, 0, e2, s2)
                    && #[trigger] flags(ev[e2], s2) && !refinable(km, flagged_leaf(ev[e2], s2), max_depth);
            assert(slot_done(e as int, 4, w.0, w.1));
        }
        if stuck_upto(ev, km, max_depth, e as int, 4) {
            let w = choose|e2: int, s2: int|
                0 <= e2 < ev.len() && 0 <= s2 < 4 && slot_done(e as int, 4, e2, s2)
                    && #[trigger] flags(ev[e2], s2) && !refinable(km, flagged_leaf(ev[e2], s2), max_depth);
            assert(slot_done(e + 1, 0, w.0, w.1));
        }
    }
}

/// One completion step over the segments of a balanced leaf set.
///
/// A crossing segment without four incident leaves makes the step
/// invalid. Otherwise every crossing segment flags the incident leaves
/// that have no usable token, or all four when their tokens do not close a
/// cycle; flagged leaves above `max_depth` are returned for refinement. With
/// nothing to refine, the step is complete unless some flagged leaf could
/// not be refined.
pub fn completion_step(evidence: &[SegmentEvidence], locator: &LeafLocator, max_depth: u8) -> (r:
    CompletionStep)
    ensures
        ({
            let ev = evidence@;
            let km = locator.keys_spec();
            if partition_incomplete(ev) {
                r == CompletionStep::Invalid
            } else if any_flagged(ev, km, max_depth) {
                r matches CompletionStep::Refine(v) && (forall|a: int, b: int|
                    0 <= a < b < v@.len() ==> key_lt(
                        refine_key(#[trigger] v@[a]),
                        refine_key(#[trigger] v@[b]),
                    )) && (forall|entry: (CellKey, u32)| #[trigger]
                    v@.contains(entry) <==> flagged_upto(
                        ev,
                        km,
                        max_depth,
                        ev.len() as int,
                        0,
                        refine_key(entry),
                    ))
            } else if stuck_upto(ev, km, max_depth, ev.len() as int, 0) {
                r == CompletionStep::Invalid
            } else {
                r == CompletionStep::Complete
            }
        }),
{
    let ghost ev = evidence@;
    let ghost km = locator.keys_spec();
    let mut keys: Vec<SortKey> = Vec::new();
    let mut stuck = false;
    let mut e: usize = 0;
    while e < evidence.len()
        invariant
            e <= ev.len(),
            ev == evidence@,
            km == locator.keys_spec(),
            forall|e2: int| 0 <= e2 < e ==> !((#[trigger] ev[e2]).crossing && ev[e2].incident is Err),
            strictly_sorted(keys@),
            forall|x: SortKey| #[trigger]
                keys@.contains(x) <==> flagged_upto(ev, km, max_depth, e as int, 0, x),
            stuck == stuck_upto(ev, km, max_depth, e as int, 0),
        decreases ev.len() - e,
    {
        let segment = evidence[e];
        if segment.crossing {
            match segment.incident {
                Err(()) => {
                    proof {
                        assert(partition_incomplete(ev)) by {
                            assert(ev[e as int].crossing && ev[e as int].incident is Err);
                        }
                    }
                    return CompletionStep::Invalid;
                },
                Ok(None) => {
                    proof {
                        lemma_no_flags(ev, km, max_depth, e as int);
                    }
                },
                Ok(Some(ids)) => {
                    flag_segment(evidence, e, ids, locator, max_depth, &mut keys, &mut stuck);
                },
            }
        } else {
            proof {
                lemma_no_flags(ev, km, max_depth, e as int);
            }
        }
        e += 1;
    }
    proof {
        assert(!partition_incomplete(ev));
    }
    if keys.len() > 0 {
        let mut v: Vec<(CellKey, u32)> = Vec::new();
        let mut j: usize = 0;
        while j < keys.len()
            invariant
                j <= keys@.len(),
                v@.len() == j,
                forall|a: int| 0 <= a < j ==> refine_key(#[trigger] v@[a]) == keys@[a],
                forall|x: SortKey| #[trigger]
                    keys@.contains(x) <==> flagged_upto(ev, km, max_depth, ev.len() as int, 0, x),
            decreases keys@.len() - j,
        {
            let x = keys[j];
            proof {
                assert(keys@.contains(x));
                let w = choose|e2: int, s2: int|
                    0 <= e2 < ev.len() && 0 <= s2 < 4 && slot_done(ev.len() as int, 0, e2, s2)
                        && #[trigger] flags(ev[e2], s2) && refinable(
                        km,
                        flagged_leaf(ev[e2], s2),
                        max_depth,
                    ) && x == refine_key(
                        (tuple_key(km[flagged_leaf(ev[e2], s2)]), flagged_leaf(ev[e2], s2)),
                    );
                assert(x.4 < 256);
            }
            v.push((
                CellKey {
                    origin: crate::grid::CornerKey { x: x.0, y: x.1, z: x.2 },
                    span: x.3,
                    depth: x.4 as u8,
                },
                x.5,
            ));
            j += 1;
        }
        proof {
            assert(keys@.contains(keys@[0]));
            assert(any_flagged(ev, km, max_depth));
            assert forall|entry: (CellKey, u32)| #[trigger]
                v@.contains(entry) <==> flagged_upto(ev, km, max_depth, ev.len() as int, 0, refine_key(entry)) by {
                if v@.contains(entry) {
                    let a = choose|a: int| 0 <= a < v@.len() && v@[a] == entry;
                    assert(keys@.contains(keys@[a]));
                }
                if flagged_upto(ev, km, max_depth, ev.len() as int, 0, refine_key(entry)) {
                    let x = refine_key(entry);
                    assert(keys@.contains(x));
                    let a = choose|a: int| 0 <= a < keys@.len() && keys@[a] == x;
                    assert(refine_key(v@[a]) == x);
                    assert(v@[a] == entry);
                }
            }
        }
        CompletionStep::Refine(v)
    } else {
        proof {
            if any_flagged(ev, km, max_depth) {
                let x = choose|x: SortKey| #[trigger] flagged_upto(ev, km, max_depth, ev.len() as int, 0, x);
                assert(keys@.contains(x));
            }
        }
        if stuck {
            CompletionStep::Invalid
        } else {
            CompletionStep::Complete
        }
    }
}

/// A segment that does not cross, or has no interior incident leaves,
/// flags nothing.
proof fn lemma_no_flags(
    ev: Seq<SegmentEvidence>,
    km: Map<u32, (u32, u32, u32, u32, u8)>,
    max_depth: u8,
    e: int,
)
    requires
        0 <= e < ev.len(),
        !ev[e].crossing || ev[e].incident == Ok::<Option<[u32; 4]>, ()>(None),
    ensures
        forall|x: SortKey|
            #[trigger] flagged_upto(ev, km, max_depth, e + 1, 0, x) == flagged_upto(
                ev,
                km,
                max_depth,
                e,
                0,
                x,
            ),
        stuck_upto(ev, km, max_depth, e + 1, 0) == stuck_upto(ev, km, max_depth, e, 0),
{
    assert forall|x: SortKey|
        #[trigger] flagged_upto(ev, km, max_depth, e + 1, 0, x) == flagged_upto(
            ev,
            km,
            max_depth,
            e,
            0,
            x,
        ) by {
        if flagged_upto(ev, km, max_depth, e + 1, 0, x) {
            let w = choose|e2: int, s2: int|
                0 <= e2 < ev.len() && 0 <= s2 < 4 && slot_done(e + 1, 0, e2, s2) && #[trigger] flags(
                    ev[e2],
                    s2,
                ) && refinable(km, flagged_leaf(ev[e2], s2), max_depth) && x == refine_key(
                    (tuple_key(km[flagged_leaf(ev[e2], s2)]), flagged_leaf(ev[e2], s2)),
                );
            assert(slot_done(e, 0, w.0, w.1));
        }
        if flagged_upto(ev, km, max_depth, e, 0, x) {
            let w = choose|e2: int, s2: int|
                0 <= e2 < ev.len() && 0 <= s2 < 4 && slot_done(e, 0, e2, s2) && #[trigger] flags(
                    ev[e2],
                    s2,
                ) && refinable(km, flagged_leaf(ev[e2], s2), max_depth) && x == refine_key(
                    (tuple_key(km[flagged_leaf(ev[e2], s2)]), flagged_leaf(ev[e2], s2)),
                );
            assert(slot_done(e + 1, 0, w.0, w.1));
        }
    }
    if stuck_upto(ev, km, max_depth, e + 1, 0) {
        let w = choose|e2: int, s2: int|
            0 <= e2 < ev.len() && 0 <= s2 < 4 && slot_done(e + 1, 0, e2, s2) && #[trigger] flags(
                ev[e2],
                s2,
            ) && !refinable(km, flagged_leaf(ev[e2], s2), max_depth);
        assert(slot_done(e, 0, w.0, w.1));
    }
    if stuck_upto(ev, km, max_depth, e, 0) {
        let w = choose|e2: int, s2: int|
            0 <= e2 < ev.len() && 0 <= s2 < 4 && slot_done(e, 0, e2, s2) && #[trigger] flags(
                ev[e2],
                s2,
            ) && !refinable(km, flagged_leaf(ev[e2], s2), max_depth);
        assert(slot_done(e + 1, 0, w.0, w.1));
    }
}

/// A complete step leaves every crossing segment closed: it has four
/// incident leaves or lies on the domain boundary, and when it has four,
/// all of them carry usable tokens that close a cycle of distinct vertices.
pub proof fn lemma_complete_closes_every_crossing(
    evidence: Seq<SegmentEvidence>,
    keys: Map<u32, (u32, u32, u32, u32, u8)>,
    max_depth: u8,
)
    requires
        !partition_incomplete(evidence),
        !any_flagged(evidence, keys, max_depth),
        !stuck_upto(evidence, keys, max_depth, evidence.len() as int, 0),
    ensures
        forall|e: int|
            0 <= e < evidence.len() && (#[trigger] evidence[e]).crossing ==> evidence[e].incident is Ok
                && (evidence[e].incident matches Ok(Some(_)) ==> tokens_close(evidence[e].tokens)),
{
    assert forall|e: int|
        0 <= e < evidence.len() && (#[trigger] evidence[e]).crossing implies evidence[e].incident is Ok
            && (evidence[e].incident matches Ok(Some(_)) ==> tokens_close(evidence[e].tokens)) by {
        if evidence[e].incident is Err {
            assert(partition_incomplete(evidence));
        }
        if evidence[e].incident matches Ok(Some(_)) {
            if !tokens_close(evidence[e].tokens) {
                let slot: int = if evidence[e].tokens[0] is None {
                    0
                } else if evidence[e].tokens[1] is None {
                    1
                } else if evidence[e].tokens[2] is None {
                    2
                } else {
                    3
                };
                assert(flags(evidence[e], slot));
                assert(slot_done(evidence.len() as int, 0, e, slot));
                let id = flagged_leaf(evidence[e], slot);
                if refinable(keys, id, max_depth) {
                    let x = refine_key((tuple_key(keys[id]), id));
                    assert(flagged_upto(evidence, keys, max_depth, evidence.len() as int, 0, x));
                    assert(any_flagged(evidence, keys, max_depth));
                } else {
                    assert(stuck_upto(evidence, keys, max_depth, evidence.len() as int, 0));
                }
            }
        }
    }
}

/// What a leaf's analysis says of one surface component's vertex.
#[derive(Copy, Clone, Debug, Eq, PartialEq, Structural)]
pub struct ComponentStatus {
    /// It has constraints and a finite solved vertex.
    pub usable: bool,
    /// It has no constraints and no solve.
    pub constraintless: bool,
}

/// The analysis of a leaf that transition routing reads.
#[derive(Debug)]
pub struct LeafAnalysis {
    /// The leaf's surface components.
    pub topology: CellTopology,
    /// The vertex status of each component, by component number.
    pub components: Vec<ComponentStatus>,
    /// The vertex status of the leaf's single compatibility vertex.
    pub compatibility: ComponentStatus,
    /// Hermite samples lie exactly on the crossing edges.
    pub complete_hermite: bool,
    /// The leaf has at least one Hermite sample.
    pub has_hermite: bool,
    /// Every corner sample, sample position and the compatibility position
    /// is finite.
    pub samples_finite: bool,
}

/// A leaf's refinement decision and, when it was analyzed, its analysis.
#[derive(Debug)]
pub struct LeafMarker {
    /// The refinement decision.
    pub decision: RefinementDecision,
    /// The analysis, when the leaf was analyzed.
    pub analysis: Option<LeafAnalysis>,
}

/// Every component of `a` is constraintless.
pub open spec fn all_constraintless(a: LeafAnalysis) -> bool {
    forall|c: int| 0 <= c < a.components@.len() ==> (#[trigger] a.components@[c]).constraintless
}

/// A finest leaf may stand in with its cell center: complete, finite,
/// sampled evidence and no constraints anywhere.
pub open spec fn center_fallback(a: LeafAnalysis) -> bool {
    &&& a.complete_hermite
    &&& a.samples_finite
    &&& a.has_hermite
    &&& a.compatibility.constraintless
    &&& all_constraintless(a)
}

/// The token component `c` of leaf `leaf` offers, with the center fallback
/// allowed or not.
pub open spec fn routed_token(leaf: u32, a: LeafAnalysis, c: int, fallback: bool) -> Option<(u32, u8)> {
    if c >= a.components@.len() {
        None
    } else if a.components@[c].usable {
        Some((leaf, c as u8))
    } else if fallback && a.components@[c].constraintless {
        Some((leaf, 255u8))
    } else if a.compatibility.usable {
        Some((leaf, 255u8))
    } else {
        None
    }
}

/// The component token leaf `leaf` offers along `route`: its routed
/// component when usable, else its compatibility vertex (`255`) when that
/// is usable or the finest-depth center fallback applies; `None` when the
/// leaf is not kept, was not analyzed, or offers nothing.
pub open spec fn leaf_token(leaf: u32, marker: Option<LeafMarker>, route: ComponentRoute) -> Option<(u32, u8)> {
    match marker {
        None => None,
        Some(m) => if !(m.decision is Retain || m.decision is RetainRedundantHermitePlanes
            || m.decision is MaxDepthCompatibility) {
            None
        } else {
            match m.analysis {
                None => None,
                Some(a) => {
                    let fallback = m.decision is MaxDepthCompatibility && center_fallback(a);
                    match route {
                        ComponentRoute::LocalEdge(edge) => {
                            let c = if edge < 12 {
                                a.topology.edge_component(edge as int)
                            } else {
                                None
                            };
                            match c {
                                None => None,
                                Some(c) => routed_token(leaf, a, c as int, fallback),
                            }
                        },
                        ComponentRoute::OnlyComponent => if a.components@.len() == 1 {
                            routed_token(leaf, a, 0, fallback)
                        } else if a.components@.len() == 0 {
                            if a.compatibility.usable || fallback {
                                Some((leaf, 255u8))
                            } else {
                                None
                            }
                        } else {
                            None
                        },
                    }
                },
            }
        },
    }
}

/// Whether a finest leaf may stand in with its cell center.
pub fn max_depth_center_fallback_allowed(analysis: &LeafAnalysis) -> (r: bool)
    ensures
        r == center_fallback(*analysis),
{
    if !(analysis.complete_hermite && analysis.samples_finite && analysis.has_hermite
        && analysis.compatibility.constraintless) {
        return false;
    }
    let mut c: usize = 0;
    while c < analysis.components.len()
        invariant
            c <= analysis.components@.len(),
            forall|d: int| 0 <= d < c ==> (#[trigger] analysis.components@[d]).constraintless,
        decreases analysis.components@.len() - c,
    {
        if !analysis.components[c].constraintless {
            return false;
        }
        c += 1;
    }
    true
}

/// The component token leaf `leaf`, with marker `marker` (`None` when the
/// leaf has none), offers along `route`.
pub fn transition_component_token(leaf: u32, marker: Option<&LeafMarker>, route: ComponentRoute) -> (r:
    Option<(u32, u8)>)
    ensures
        r == leaf_token(
            leaf,
            match marker {
                Some(m) => Some(*m),
                None => None,
            },
            route,
        ),
{
    let m = match marker {
        Some(m) => m,
        None => {
            return None;
        },
    };
    let kept = match m.decision {
        RefinementDecision::Retain => true,
        RefinementDecision::RetainRedundantHermitePlanes => true,
        RefinementDecision::MaxDepthCompatibility => true,
        _ => false,
    };
    if !kept {
        return None;
    }
    let a = match &m.analysis {
        Some(a) => a,
        None => {
            return None;
        },
    };
    let fallback = matches!(m.decision, RefinementDecision::MaxDepthCompatibility)
        && max_depth_center_fallback_allowed(a);
    let component: u8 = match route {
        ComponentRoute::LocalEdge(edge) => match a.topology.component_for_edge(edge) {
            Some(c) => c,
            None => {
                return None;
            },
        },
        ComponentRoute::OnlyComponent => {
            if a.components.len() == 1 {
                0
            } else if a.components.len() == 0 {
                if a.compatibility.usable || fallback {
                    return Some((leaf, 255u8));
                }
                return None;
            } else {
                return None;
            }
        },
    };
    if (component as usize) >= a.components.len() {
        return None;
    }
    let routed = a.components[component as usize];
    if routed.usable {
        Some((leaf, component))
    } else if fallback && routed.constraintless {
        Some((leaf, 255u8))
    } else if a.compatibility.usable {
        Some((leaf, 255u8))
    } else {
        None
    }
}

/// A kept, analyzed leaf whose routed component has a usable vertex offers
/// exactly that component's vertex, whatever its compatibility vertex and
/// fallback allow.
pub proof fn lemma_usable_component_is_offered(
    leaf: u32,
    m: LeafMarker,
    a: LeafAnalysis,
    route: ComponentRoute,
    c: u8,
)
    requires
        m.decision is Retain || m.decision is RetainRedundantHermitePlanes
            || m.decision is MaxDepthCompatibility,
        m.analysis == Some(a),
        (c as int) < a.components@.len(),
        a.components@[c as int].usable,
        match route {
            ComponentRoute::LocalEdge(edge) => edge < 12 && a.topology.edge_component(edge as int)
                == Some(c),
            ComponentRoute::OnlyComponent => a.components@.len() == 1 && c == 0,
        },
    ensures
        leaf_token(leaf, Some(m), route) == Some((leaf, c)),
{
}

/// A token always names the leaf itself; one naming a component (not the
/// compatibility vertex `255`) names a component the route reaches, and
/// that component has a usable vertex; the compatibility vertex is offered
/// (with fewer than 256 components) only when it is usable or the
/// finest-depth center fallback applies.
pub proof fn lemma_named_component_is_usable(
    leaf: u32,
    marker: Option<LeafMarker>,
    route: ComponentRoute,
)
    ensures
        leaf_token(leaf, marker, route) matches Some(t) ==> {
            &&& t.0 == leaf
            &&& t.1 != 255 ==> {
                let a = marker->0.analysis->0;
                &&& (t.1 as int) < a.components@.len()
                &&& a.components@[t.1 as int].usable
                &&& match route {
                    ComponentRoute::LocalEdge(edge) => edge < 12 && a.topology.edge_component(
                        edge as int,
                    ) == Some(t.1),
                    ComponentRoute::OnlyComponent => t.1 == 0,
                }
            }
            &&& t.1 == 255 && marker->0.analysis->0.components@.len() <= 255 ==> {
                let m = marker->0;
                let a = m.analysis->0;
                a.compatibility.usable || (m.decision is MaxDepthCompatibility && center_fallback(a))
            }
        },
{
}

} // verus!
