//! Strictly sorted lists of integer keys, used as ordered sets.
//!
//! Keys are six `u32` parts compared lexicographically; a list sorted
//! strictly in that order holds each key once.
use vstd::prelude::*;

verus! {

/// A six-part sort key, compared lexicographically.
pub type SortKey = (u32, u32, u32, u32, u32, u32);

/// Strict lexicographic order on sort keys.
pub open spec fn key_lt(a: SortKey, b: SortKey) -> bool {
    ||| a.0 < b.0
    ||| a.0 == b.0 && a.1 < b.1
    ||| a.0 == b.0 && a.1 == b.1 && a.2 < b.2
    ||| a.0 == b.0 && a.1 == b.1 && a.2 == b.2 && a.3 < b.3
    ||| a.0 == b.0 && a.1 == b.1 && a.2 == b.2 && a.3 == b.3 && a.4 < b.4
    ||| a.0 == b.0 && a.1 == b.1 && a.2 == b.2 && a.3 == b.3 && a.4 == b.4 && a.5 < b.5
}

/// `s` is strictly increasing in key order.
pub open spec fn strictly_sorted(s: Seq<SortKey>) -> bool {
    forall|i: int, j: int| 0 <= i < j < s.len() ==> key_lt(#[trigger] s[i], #[trigger] s[j])
}

/// `a` precedes `b` in key order.
pub fn key_less(a: SortKey, b: SortKey) -> (r: bool)
    ensures
        r == key_lt(a, b),
{
    if a.0 != b.0 {
        a.0 < b.0
    } else if a.1 != b.1 {
        a.1 < b.1
    } else if a.2 != b.2 {
        a.2 < b.2
    } else if a.3 != b.3 {
        a.3 < b.3
    } else if a.4 != b.4 {
        a.4 < b.4
    } else {
        a.5 < b.5
    }
}

/// The first position of a sorted key list whose key is not below `k`.
pub fn lower_bound(v: &Vec<SortKey>, k: SortKey) -> (i: usize)
    requires
        strictly_sorted(v@),
    ensures
        i <= v@.len(),
        forall|j: int| 0 <= j < i ==> key_lt(#[trigger] v@[j], k),
        forall|j: int| i <= j < v@.len() ==> !key_lt(#[trigger] v@[j], k),
{
    let mut lo: usize = 0;
    let mut hi: usize = v.len();
    while lo < hi
        invariant
            lo <= hi <= v@.len(),
            strictly_sorted(v@),
            forall|j: int| 0 <= j < lo ==> key_lt(#[trigger] v@[j], k),
            forall|j: int| hi <= j < v@.len() ==> !key_lt(#[trigger] v@[j], k),
        decreases hi - lo,
    {
        let mid = lo + (hi - lo) / 2;
        if key_less(v[mid], k) {
            proof {
                assert forall|j: int| 0 <= j < mid + 1 implies key_lt(#[trigger] v@[j], k) by {
                    if j < mid {
                        assert(key_lt(v@[j], v@[mid as int]));
                    }
                }
            }
            lo = mid + 1;
        } else {
            proof {
                assert forall|j: int| mid <= j < v@.len() implies !key_lt(#[trigger] v@[j], k) by {
                    if j > mid {
                        assert(key_lt(v@[mid as int], v@[j]));
                    }
                }
            }
            hi = mid;
        }
    }
    lo
}

/// The position of `k` in a sorted key list that holds it.
pub fn position_of(v: &Vec<SortKey>, k: SortKey) -> (i: usize)
    requires
        strictly_sorted(v@),
        v@.contains(k),
    ensures
        i < v@.len(),
        v@[i as int] == k,
        forall|j: int| 0 <= j < i ==> key_lt(#[trigger] v@[j], k),
        forall|j: int| i < j < v@.len() ==> key_lt(k, #[trigger] v@[j]),
{
    let i = lower_bound(v, k);
    proof {
        let w = choose|w: int| 0 <= w < v@.len() && v@[w] == k;
        assert(w >= i);
        if w > i {
            assert(key_lt(v@[i as int], v@[w]));
        }
        assert forall|j: int| i < j < v@.len() implies key_lt(k, #[trigger] v@[j]) by {
            assert(key_lt(v@[i as int], v@[j]));
        }
    }
    i
}

/// Adds `k` to a sorted key list unless it is there already.
pub fn insert_sorted(v: &mut Vec<SortKey>, k: SortKey)
    requires
        strictly_sorted(old(v)@),
    ensures
        strictly_sorted(final(v)@),
        forall|x: SortKey| #[trigger] final(v)@.contains(x) <==> (old(v)@.contains(x) || x == k),
{
    let i = lower_bound(v, k);
    if i < v.len() && v[i].0 == k.0 && v[i].1 == k.1 && v[i].2 == k.2 && v[i].3 == k.3 && v[i].4
        == k.4 && v[i].5 == k.5 {
        proof {
            assert(v@[i as int] == k);
        }
        return ;
    }
    let ghost before = v@;
    proof {
        assert forall|j: int| i <= j < before.len() implies key_lt(k, #[trigger] before[j]) by {
            if j > i {
                assert(key_lt(before[i as int], before[j]));
            }
        }
        before.insert_ensures(i as int, k);
    }
    v.insert(i, k);
    proof {
        let after = v@;
        assert(after == before.insert(i as int, k));
        assert forall|a: int, b: int| 0 <= a < b < after.len() implies key_lt(
            #[trigger] after[a],
            #[trigger] after[b],
        ) by {
            if a < i && b < i {
                assert(after[a] == before[a] && after[b] == before[b]);
            } else if a < i && b == i {
                assert(after[a] == before[a]);
            } else if a < i {
                assert(after[a] == before[a] && after[b] == before[b - 1]);
            } else if a == i {
                assert(after[b] == before[b - 1]);
            } else {
                assert(after[a] == before[a - 1] && after[b] == before[b - 1]);
            }
        }
        assert forall|x: SortKey| #[trigger] after.contains(x) <==> (before.contains(x) || x == k) by {
            if after.contains(x) {
                let w = choose|w: int| 0 <= w < after.len() && after[w] == x;
                if w < i {
                    assert(before[w] == x);
                } else if w > i {
                    assert(before[w - 1] == x);
                }
            }
            if before.contains(x) {
                let w = choose|w: int| 0 <= w < before.len() && before[w] == x;
                if w < i {
                    assert(after[w] == x);
                } else {
                    assert(after[w + 1] == x);
                }
            }
            if x == k {
                assert(after[i as int] == x);
            }
        }
    }
}


} // verus!
