//! Cyclic token loops around a primal edge.
//!
//! The four cells around an interior primal edge contribute one token each,
//! in cyclic order. Adjacent repetitions collapse (two cells routing to the
//! same component share one vertex); what remains must be a simple polygon
//! of at least three distinct tokens.

use vstd::prelude::*;
use vstd::laws_eq::obeys_concrete_eq;

verus! {

/// `s` with each run of equal adjacent entries collapsed to one entry.
pub open spec fn collapse_runs<T>(s: Seq<T>) -> Seq<T>
    decreases s.len(),
{
    if s.len() == 0 {
        s
    } else {
        let prev = collapse_runs(s.drop_last());
        if prev.len() > 0 && prev.last() == s.last() {
            prev
        } else {
            prev.push(s.last())
        }
    }
}

/// [`collapse_runs`], then the last entry dropped when the loop closes on
/// its first entry.
pub open spec fn collapse_cycle<T>(s: Seq<T>) -> Seq<T> {
    let c = collapse_runs(s);
    if c.len() > 1 && c[0] == c.last() {
        c.drop_last()
    } else {
        c
    }
}

/// The collapsed cycle, when it is a simple polygon of at least three
/// distinct tokens.
pub open spec fn distinct_cycle<T>(s: Seq<T>) -> Option<Seq<T>> {
    let c = collapse_cycle(s);
    if c.len() >= 3 && c.no_duplicates() {
        Some(c)
    } else {
        None
    }
}

proof fn lemma_collapse_len<T>(s: Seq<T>)
    ensures
        collapse_runs(s).len() <= s.len(),
        s.len() > 0 ==> collapse_runs(s).len() > 0,
    decreases s.len(),
{
    if s.len() > 0 {
        lemma_collapse_len(s.drop_last());
    }
}

/// Collapses adjacent repetitions of a cyclic four-token loop; fails unless
/// at least three distinct tokens remain, each exactly once.
pub fn cyclic_distinct<T: Copy + PartialEq>(values: [T; 4]) -> (r: Result<Vec<T>, ()>)
    requires
        obeys_concrete_eq::<T>(),
    ensures
        match distinct_cycle(values@) {
            Some(c) => r matches Ok(v) && v@ == c,
            None => r is Err,
        },
{
    proof {
        reveal(obeys_concrete_eq);
    }
    let mut out: Vec<T> = Vec::with_capacity(4);
    let mut i: usize = 0;
    while i < 4
        invariant
            i <= 4,
            obeys_concrete_eq::<T>(),
            out@ == collapse_runs(values@.take(i as int)),
        decreases 4 - i,
    {
        proof {
            reveal(obeys_concrete_eq);
            assert(values@.take(i as int + 1).drop_last() =~= values@.take(i as int));
            lemma_collapse_len(values@.take(i as int));
        }
        let value = values[i];
        let n = out.len();
        if n == 0 {
            out.push(value);
        } else {
            let same = out[n - 1] == value;
            if !same {
                out.push(value);
            }
        }
        i += 1;
    }
    proof {
        assert(values@.take(4) =~= values@);
    }
    let n = out.len();
    if n > 1 {
        let same = out[0] == out[n - 1];
        if same {
            out.pop();
        }
    }
    let ghost c = collapse_cycle(values@);
    assert(out@ == c);
    if out.len() < 3 {
        return Err(());
    }
    let len = out.len();
    let mut first: usize = 0;
    while first < len
        invariant
            first <= len,
            len == out@.len(),
            out@ == c,
            obeys_concrete_eq::<T>(),
                forall|a: int, b: int| 0 <= a < first && a < b < len ==> out@[a] != out@[b],
            c == collapse_cycle(values@),
        decreases len - first,
    {
        let mut second: usize = first + 1;
        while second < len
            invariant
                first < second <= len,
                len == out@.len(),
                out@ == c,
                c == collapse_cycle(values@),
                obeys_concrete_eq::<T>(),
                forall|b: int| first < b < second ==> out@[first as int] != out@[b],
            decreases len - second,
        {
            proof {
                reveal(obeys_concrete_eq);
            }
            let same = out[first] == out[second];
            if same {
                proof {
                    assert(c[first as int] == c[second as int]);
                    assert(!c.no_duplicates());
                    assert(distinct_cycle(values@) is None);
                }
                return Err(());
            }
            second += 1;
        }
        first += 1;
    }
    proof {
        assert forall|a: int, b: int| 0 <= a < c.len() && 0 <= b < c.len() && a != b implies c[a]
            != c[b] by {
            if a > b {
                assert(out@[b] != out@[a]);
            }
        }
    }
    Ok(out)
}

} // verus!
