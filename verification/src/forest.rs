//! Deciding whether the parent links of a hierarchy form a forest.
//!
//! Following parent links upwards from a known pid either ends at a pid
//! without a recorded parent or runs into a cycle. With `n` known pids, a
//! climb that has not ended after `n` steps never ends.

use vstd::prelude::*;
use vstd::set_lib::lemma_len_subset;
use crate::tree::ProcessTree;

verus! {

impl ProcessTree {
    /// The number of parent links between `pid` and the top of its chain,
    /// if the top is reached within `fuel` steps.
    pub open spec fn climb(self, pid: u32, fuel: nat) -> Option<nat>
        decreases fuel,
    {
        if !self.parents.contains_key(pid) {
            Some(0)
        } else if fuel == 0 {
            None
        } else {
            match self.climb(self.parents[pid], (fuel - 1) as nat) {
                Some(depth) => Some(depth + 1),
                None => None,
            }
        }
    }

    /// The pid reached from `pid` after `steps` parent links.
    pub open spec fn ancestor(self, pid: u32, steps: nat) -> u32
        decreases steps,
    {
        if steps == 0 {
            pid
        } else {
            self.parents[self.ancestor(pid, (steps - 1) as nat)]
        }
    }

    /// From every known pid the top is reached within as many steps as there
    /// are known pids.
    pub open spec fn grounded(self) -> bool {
        forall|pid: u32| self.order.contains(pid) ==> (#[trigger] self.climb(
            pid,
            self.order.len(),
        )) is Some
    }
}

/// A climb never takes more steps than it has fuel.
pub proof fn lemma_climb_bound(t: ProcessTree, pid: u32, fuel: nat)
    requires
        t.climb(pid, fuel) is Some,
    ensures
        t.climb(pid, fuel)->0 <= fuel,
    decreases fuel,
{
    if t.parents.contains_key(pid) && fuel > 0 {
        lemma_climb_bound(t, t.parents[pid], (fuel - 1) as nat);
    }
}

/// More fuel does not change where a climb ends.
pub proof fn lemma_climb_more_fuel(t: ProcessTree, pid: u32, fuel: nat, more: nat)
    requires
        t.climb(pid, fuel) is Some,
        fuel <= more,
    ensures
        t.climb(pid, more) == t.climb(pid, fuel),
    decreases fuel,
{
    if t.parents.contains_key(pid) && fuel > 0 {
        lemma_climb_more_fuel(t, t.parents[pid], (fuel - 1) as nat, (more - 1) as nat);
    }
}

/// A climb that runs out of fuel has passed only pids with a parent.
proof fn lemma_climb_fails(t: ProcessTree, pid: u32, fuel: nat, steps: nat)
    requires
        t.climb(pid, fuel) is None,
        steps <= fuel,
    ensures
        t.parents.contains_key(t.ancestor(pid, steps)),
        t.climb(t.ancestor(pid, steps), (fuel - steps) as nat) is None,
    decreases steps,
{
    if steps > 0 {
        lemma_climb_fails(t, pid, fuel, (steps - 1) as nat);
    }
}

/// Along parent links a ranking rises strictly.
proof fn lemma_rank_rises(t: ProcessTree, h: spec_fn(u32) -> nat, pid: u32, a: nat, b: nat)
    requires
        t.linked(),
        t.ranked_by(h),
        a < b,
        forall|k: nat| k < b ==> t.parents.contains_key(#[trigger] t.ancestor(pid, k)),
    ensures
        h(t.ancestor(pid, a)) < h(t.ancestor(pid, b)),
    decreases b,
{
    let below = t.ancestor(pid, (b - 1) as nat);
    let above = t.ancestor(pid, b);
    assert(t.parents.contains_key(below));
    assert(t.children[above].contains(below));
    let i = choose|i: int| 0 <= i < t.children[above].len() && t.children[above][i] == below;
    assert(h(t.children[above][i]) < h(above));
    if a < b - 1 {
        lemma_rank_rises(t, h, pid, a, (b - 1) as nat);
    }
}

/// A hierarchy in which every climb ends is well-founded.
pub proof fn lemma_grounded_is_well_founded(t: ProcessTree)
    requires
        t.linked(),
        t.grounded(),
    ensures
        t.well_founded(),
{
    let n = t.order.len();
    let h = |pid: u32|
        match t.climb(pid, n) {
            Some(depth) => (n - depth) as nat,
            None => 0nat,
        };
    assert forall|p: u32, i: int|
        t.children.contains_key(p) && 0 <= i < t.children[p].len() implies h(
        #[trigger] t.children[p][i],
    ) < h(p) by {
        let c = t.children[p][i];
        assert(t.parents.contains_key(c) && t.parents[c] == p);
        assert(t.order.contains(c));
        assert(t.climb(c, n) is Some);
        lemma_climb_bound(t, c, n);
        lemma_climb_more_fuel(t, p, (n - 1) as nat, n);
    }
    assert(t.ranked_by(h));
}

/// A hierarchy with a climb that does not end is not well-founded.
pub proof fn lemma_ungrounded_is_cyclic(t: ProcessTree, pid: u32)
    requires
        t.linked(),
        t.climb(pid, t.order.len()) is None,
    ensures
        !t.well_founded(),
{
    if t.well_founded() {
        let h = t.height();
        let n = t.order.len();
        let chain = Seq::new(n + 1, |k: int| t.ancestor(pid, k as nat));
        assert forall|k: nat| k < n + 1 implies t.parents.contains_key(
            #[trigger] t.ancestor(pid, k),
        ) by {
            lemma_climb_fails(t, pid, n, k);
        }
        assert forall|a: int, b: int| 0 <= a < chain.len() && 0 <= b < chain.len() && a
            != b implies chain[a] != chain[b] by {
            if a < b {
                lemma_rank_rises(t, h, pid, a as nat, b as nat);
            } else {
                lemma_rank_rises(t, h, pid, b as nat, a as nat);
            }
        }
        assert(chain.no_duplicates());
        chain.unique_seq_to_set();
        t.order.lemma_cardinality_of_set();
        assert(chain.to_set().subset_of(t.order.to_set())) by {
            assert forall|p: u32| chain.to_set().contains(p) implies t.order.to_set().contains(
                p,
            ) by {
                let k = choose|k: int| 0 <= k < chain.len() && chain[k] == p;
                assert(t.parents.contains_key(t.ancestor(pid, k as nat)));
                assert(t.order.contains(p));
            }
        }
        vstd::seq_lib::seq_to_set_is_finite(t.order);
        lemma_len_subset(chain.to_set(), t.order.to_set());
        assert(false);
    }
}

} // verus!
