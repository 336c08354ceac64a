//! Lists of pids: membership and ascending order.

use vstd::prelude::*;
use vstd::relations::{sorted_by, total_ordering};
use vstd::seq_lib::{lemma_sorted_unique, to_multiset_insert};

verus! {

/// The usual order on pids.
pub open spec fn at_most() -> spec_fn(u32, u32) -> bool {
    |a: u32, b: u32| a <= b
}

/// The elements of `pids` in ascending order, duplicates kept.
pub open spec fn ascending(pids: Seq<u32>) -> Seq<u32> {
    pids.sort_by(at_most())
}

/// `ascending(pids)` is the one ascending arrangement of `pids`.
pub proof fn lemma_ascending(pids: Seq<u32>)
    ensures
        sorted_by(ascending(pids), at_most()),
        ascending(pids).to_multiset() == pids.to_multiset(),
        ascending(pids).len() == pids.len(),
        forall|out: Seq<u32>|
            sorted_by(out, at_most()) && out.to_multiset() == pids.to_multiset() ==> out
                == ascending(pids),
{
    assert(total_ordering(at_most()));
    pids.lemma_sort_by_ensures(at_most());
    pids.to_multiset_ensures();
    ascending(pids).to_multiset_ensures();
    assert forall|out: Seq<u32>|
        sorted_by(out, at_most()) && out.to_multiset() == pids.to_multiset() implies out
        == ascending(pids) by {
        lemma_sorted_unique(out, ascending(pids), at_most());
    }
}

/// Whether `pid` occurs in `pids`.
pub fn holds(pids: &Vec<u32>, pid: u32) -> (found: bool)
    ensures
        found == pids@.contains(pid),
{
    let mut i: usize = 0;
    while i < pids.len()
        invariant
            i <= pids.len(),
            forall|j: int| 0 <= j < i ==> pids@[j] != pid,
        decreases pids.len() - i,
    {
        if pids[i] == pid {
            return true;
        }
        i += 1;
    }
    false
}

/// Sorts pids in ascending order.
pub fn sort(pids: &Vec<u32>) -> (out: Vec<u32>)
    ensures
        out@ == ascending(pids@),
{
    let mut out: Vec<u32> = Vec::new();
    let mut i: usize = 0;
    assert(pids@.take(0) == out@);
    while i < pids.len()
        invariant
            i <= pids.len(),
            sorted_by(out@, at_most()),
            out@.to_multiset() == pids@.take(i as int).to_multiset(),
        decreases pids.len() - i,
    {
        let x = pids[i];
        let mut at: usize = 0;
        while at < out.len() && out[at] <= x
            invariant
                at <= out.len(),
                forall|k: int| 0 <= k < at ==> out@[k] <= x,
            decreases out.len() - at,
        {
            at += 1;
        }
        let ghost before = out@;
        out.insert(at, x);
        proof {
            to_multiset_insert(before, at as int, x);
            assert(pids@.take(i + 1) == pids@.take(i as int).push(x));
            pids@.take(i as int).to_multiset_ensures();
            assert forall|a: int, b: int| 0 <= a < b < out@.len() implies #[trigger] at_most()(
                out@[a],
                out@[b],
            ) by {
                if a < at && b > at {
                    assert(at_most()(before[a], before[b - 1]));
                } else if a < at && b < at {
                    assert(at_most()(before[a], before[b]));
                } else if a > at {
                    assert(at_most()(before[a - 1], before[b - 1]));
                } else if a == at {
                    if at < before.len() {
                        assert(at_most()(before[at as int], before[b - 1]) || b - 1 == at);
                    }
                }
            }
        }
        i += 1;
    }
    proof {
        assert(pids@.take(i as int) == pids@);
        lemma_ascending(pids@);
    }
    out
}

} // verus!
