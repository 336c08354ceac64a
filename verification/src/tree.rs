//! The mathematical model of a process snapshot: the hierarchy as maps keyed
//! by pid, the rules that classify services, and resource aggregation.

use vstd::prelude::*;
use crate::pattern::command_matches;
use crate::text::{join_words, views_of};

verus! {

/// One observation of the process table, as the caller supplies it.
pub struct ProcessRecord {
    /// Process id, unique within a snapshot.
    pub pid: u32,
    /// Id of the parent process, if the system reports one.
    pub parent: Option<u32>,
    /// The argument vector.
    pub cmd: Vec<String>,
    /// CPU time consumed so far, in milliseconds.
    pub cpu_time: u64,
    /// Resident memory, in bytes.
    pub memory: u64,
    /// Set for entries that are threads rather than processes.
    pub thread: bool,
    /// Short name of the executable.
    pub name: String,
    /// Start of the process, in seconds since the epoch.
    pub start_time: u64,
    /// Whether the process is backed by an executable file.
    pub has_exe: bool,
}

/// What the hierarchy remembers of one process.
pub struct ProcessFacts {
    /// The argument vector joined by single spaces.
    pub cmd: Seq<char>,
    /// CPU time in whole seconds.
    pub cpu: u64,
    /// Resident memory in bytes.
    pub rss: u64,
}

impl ProcessRecord {
    /// The facts kept of this record once it enters the hierarchy.
    pub open spec fn facts(self) -> ProcessFacts {
        ProcessFacts {
            cmd: join_words(views_of(self.cmd@)),
            cpu: (self.cpu_time / 1000) as u64,
            rss: self.memory,
        }
    }
}

/// The process hierarchy derived from a snapshot.
#[verifier::ext_equal]
pub struct ProcessTree {
    /// Every known pid, in the order of the snapshot.
    pub order: Seq<u32>,
    /// The pids without a parent.
    pub roots: Seq<u32>,
    /// Parent of every known pid that has one.
    pub parents: Map<u32, u32>,
    /// Direct children of every pid that appears as a process or as a parent.
    pub children: Map<u32, Seq<u32>>,
    /// The facts of every known pid.
    pub info: Map<u32, ProcessFacts>,
}

impl ProcessTree {
    /// The hierarchy of an empty snapshot.
    pub open spec fn empty() -> ProcessTree {
        ProcessTree {
            order: Seq::empty(),
            roots: Seq::empty(),
            parents: Map::empty(),
            children: Map::empty(),
            info: Map::empty(),
        }
    }

    /// The direct children of `pid`; none for a pid that appears nowhere.
    pub open spec fn kids(self, pid: u32) -> Seq<u32> {
        if self.children.contains_key(pid) {
            self.children[pid]
        } else {
            Seq::empty()
        }
    }

    /// The hierarchy after one more observation. Threads leave no trace. A
    /// process gets a child list and its facts; with a parent it is linked
    /// below it, without one it becomes a root.
    pub open spec fn observe(self, r: ProcessRecord) -> ProcessTree {
        if r.thread {
            self
        } else {
            let listed = self.children.insert(r.pid, self.kids(r.pid));
            ProcessTree {
                order: self.order.push(r.pid),
                roots: match r.parent {
                    Some(_) => self.roots,
                    None => self.roots.push(r.pid),
                },
                parents: match r.parent {
                    Some(pp) => self.parents.insert(r.pid, pp),
                    None => self.parents,
                },
                children: match r.parent {
                    Some(pp) => listed.insert(
                        pp,
                        (if listed.contains_key(pp) {
                            listed[pp]
                        } else {
                            Seq::empty()
                        }).push(r.pid),
                    ),
                    None => listed,
                },
                info: self.info.insert(r.pid, r.facts()),
            }
        }
    }

    /// The hierarchy of a whole snapshot, observed front to back.
    pub open spec fn of(records: Seq<ProcessRecord>) -> ProcessTree
        decreases records.len(),
    {
        if records.len() == 0 {
            ProcessTree::empty()
        } else {
            ProcessTree::of(records.drop_last()).observe(records.last())
        }
    }

    /// A service is a process without a recorded parent, or a direct child
    /// of a root.
    pub open spec fn is_service(self, pid: u32) -> bool {
        !self.parents.contains_key(pid) || self.roots.contains(self.parents[pid])
    }

    /// The service a process is reported under: itself if it is a service,
    /// its parent if that is one, and otherwise itself again. Only the
    /// immediate parent is ever considered.
    pub open spec fn as_service(self, pid: u32) -> u32 {
        if self.is_service(pid) {
            pid
        } else if self.is_service(self.parents[pid]) {
            self.parents[pid]
        } else {
            pid
        }
    }

    /// The service of a known process, nothing for an unknown pid.
    pub open spec fn service_by_pid(self, pid: u32) -> Option<u32> {
        if self.info.contains_key(pid) {
            Some(self.as_service(pid))
        } else {
            None
        }
    }

    /// The children of the first `n` roots, one child list after the other.
    pub open spec fn services_upto(self, n: nat) -> Seq<u32>
        decreases n,
    {
        if n == 0 {
            Seq::empty()
        } else {
            self.services_upto((n - 1) as nat) + self.kids(self.roots[n - 1])
        }
    }

    /// The direct children of all roots, in root order.
    pub open spec fn services(self) -> Seq<u32> {
        self.services_upto(self.roots.len())
    }

    /// For a known process whose command line matches `pattern`, the service
    /// it is reported under; nothing for any other pid.
    pub open spec fn resolve(self, pattern: Seq<char>) -> spec_fn(u32) -> Option<u32> {
        |pid: u32|
            if self.info.contains_key(pid) && command_matches(self.info[pid].cmd, pattern) {
                Some(self.as_service(pid))
            } else {
                None
            }
    }

    /// The services of all known processes whose command line matches
    /// `pattern`, in snapshot order. A service appears once for each of its
    /// matching processes.
    pub open spec fn services_by_cmd(self, pattern: Seq<char>) -> Seq<u32> {
        self.order.filter_map(self.resolve(pattern))
    }

    /// The links agree with each other: the known pids are exactly those
    /// listed in `order`, each once; each of them has a child list and is
    /// either a root or has a parent, never both; and `children` is the
    /// inverse of `parents`.
    pub open spec fn linked(self) -> bool {
        &&& self.order.no_duplicates()
        &&& self.roots.no_duplicates()
        &&& forall|p: u32| self.order.contains(p) <==> self.info.contains_key(p)
        &&& forall|p: u32| self.info.contains_key(p) ==> self.children.contains_key(p)
        &&& forall|p: u32| self.roots.contains(p) ==> self.info.contains_key(p)
        &&& forall|p: u32| self.parents.contains_key(p) ==> self.info.contains_key(p)
        &&& forall|p: u32|
            self.info.contains_key(p) ==> (self.roots.contains(p) <==> !self.parents.contains_key(p))
        &&& forall|p: u32| #[trigger]
            self.children.contains_key(p) ==> self.children[p].no_duplicates()
        &&& forall|p: u32, i: int|
            self.children.contains_key(p) && 0 <= i < self.children[p].len()
                ==> self.parents.contains_key(#[trigger] self.children[p][i])
                && self.parents[self.children[p][i]] == p
        &&& forall|c: u32| #[trigger]
            self.parents.contains_key(c) ==> self.children.contains_key(self.parents[c])
                && self.children[self.parents[c]].contains(c)
    }

    /// Whether `h` falls strictly from every pid to each of its children.
    pub open spec fn ranked_by(self, h: spec_fn(u32) -> nat) -> bool {
        forall|p: u32, i: int|
            self.children.contains_key(p) && 0 <= i < self.children[p].len() ==> h(
                #[trigger] self.children[p][i],
            ) < h(p)
    }

    /// The child relation has no cycle and no infinite descent.
    pub open spec fn well_founded(self) -> bool {
        exists|h: spec_fn(u32) -> nat| self.ranked_by(h)
    }

    /// Some ranking of a well-founded hierarchy.
    pub open spec fn height(self) -> spec_fn(u32) -> nat {
        choose|h: spec_fn(u32) -> nat| self.ranked_by(h)
    }

    /// CPU seconds and resident bytes summed over the subtrees of the first
    /// `n` children of `pid`.
    pub open spec fn stat_below(self, pid: u32, n: nat) -> (nat, nat)
        decreases (self.height())(pid), n,
        when self.well_founded() && n <= self.kids(pid).len()
    {
        if n == 0 {
            (0, 0)
        } else {
            let rest = self.stat_below(pid, (n - 1) as nat);
            let last = self.stat(self.kids(pid)[n - 1]);
            (rest.0 + last.0, rest.1 + last.1)
        }
    }

    /// CPU seconds and resident bytes of `pid` and all its descendants;
    /// zero for an unknown pid.
    pub open spec fn stat(self, pid: u32) -> (nat, nat)
        decreases (self.height())(pid), self.kids(pid).len() + 1,
        when self.well_founded()
    {
        if self.info.contains_key(pid) {
            let below = self.stat_below(pid, self.kids(pid).len());
            (self.info[pid].cpu as nat + below.0, self.info[pid].rss as nat + below.1)
        } else {
            (0, 0)
        }
    }

    /// In a well-founded hierarchy the chosen height is a ranking.
    pub proof fn lemma_height_ranks(self)
        requires
            self.well_founded(),
        ensures
            self.ranked_by(self.height()),
    {
    }

    /// The sum over the first children only grows as more children are
    /// taken.
    pub proof fn lemma_stat_below_grows(self, pid: u32, a: nat, b: nat)
        requires
            self.well_founded(),
            a <= b <= self.kids(pid).len(),
        ensures
            self.stat_below(pid, a).0 <= self.stat_below(pid, b).0,
            self.stat_below(pid, a).1 <= self.stat_below(pid, b).1,
        decreases b,
    {
        if a < b {
            self.lemma_stat_below_grows(pid, a, (b - 1) as nat);
        }
    }

    /// No aggregate exceeds what 64 bits hold.
    pub open spec fn fits(self) -> bool {
        forall|p: u32| (#[trigger] self.stat(p)).0 <= u64::MAX && self.stat(p).1 <= u64::MAX
    }

    /// What every hierarchy built from an admissible snapshot satisfies.
    pub open spec fn wf(self) -> bool {
        &&& self.linked()
        &&& self.well_founded()
        &&& self.fits()
    }
}

/// No two retained records share a pid.
pub open spec fn distinct_pids(records: Seq<ProcessRecord>) -> bool {
    forall|i: int, j: int|
        0 <= i < j < records.len() && !records[i].thread && !records[j].thread
            ==> records[i].pid != records[j].pid
}

/// The snapshots from which a hierarchy can be built: pids are unique, the
/// parent links form no cycle, and every aggregate fits in 64 bits.
pub open spec fn admissible(records: Seq<ProcessRecord>) -> bool {
    &&& distinct_pids(records)
    &&& ProcessTree::of(records).well_founded()
    &&& ProcessTree::of(records).fits()
}

/// The componentwise sum of a list of (CPU, memory) pairs.
pub open spec fn sum_pairs(pairs: Seq<(nat, nat)>) -> (nat, nat)
    decreases pairs.len(),
{
    if pairs.len() == 0 {
        (0, 0)
    } else {
        let rest = sum_pairs(pairs.drop_last());
        (rest.0 + pairs.last().0, rest.1 + pairs.last().1)
    }
}

/// A process without a recorded parent is a service.
pub proof fn law_parentless_is_service(t: ProcessTree, pid: u32)
    requires
        !t.parents.contains_key(pid),
    ensures
        t.is_service(pid),
{
}

/// Promotion is idempotent: the pid a process is reported under is reported
/// under itself. This holds for every pid, root or not.
pub proof fn law_as_service_idempotent(t: ProcessTree, pid: u32)
    ensures
        t.as_service(t.as_service(pid)) == t.as_service(pid),
{
}

/// The aggregate of a known process is its own CPU time and memory plus the
/// aggregates of its direct children, each counted once.
pub proof fn law_stat_unfolds(t: ProcessTree, pid: u32)
    requires
        t.well_founded(),
        t.info.contains_key(pid),
    ensures
        t.stat(pid).0 == t.info[pid].cpu + sum_pairs(t.kids(pid).map_values(|c: u32| t.stat(c))).0,
        t.stat(pid).1 == t.info[pid].rss + sum_pairs(t.kids(pid).map_values(|c: u32| t.stat(c))).1,
{
    lemma_stat_below_sums(t, pid, t.kids(pid).len());
    assert(t.kids(pid).take(t.kids(pid).len() as int) == t.kids(pid));
}

/// The sum over the first `n` children is the sum of their aggregates.
pub proof fn lemma_stat_below_sums(t: ProcessTree, pid: u32, n: nat)
    requires
        t.well_founded(),
        n <= t.kids(pid).len(),
    ensures
        t.stat_below(pid, n) == sum_pairs(
            t.kids(pid).take(n as int).map_values(|c: u32| t.stat(c)),
        ),
    decreases n,
{
    let stats = t.kids(pid).take(n as int).map_values(|c: u32| t.stat(c));
    if n > 0 {
        lemma_stat_below_sums(t, pid, (n - 1) as nat);
        assert(stats.drop_last() == t.kids(pid).take(n - 1).map_values(|c: u32| t.stat(c)));
        assert(stats.last() == t.stat(t.kids(pid)[n - 1]));
    }
}

/// In the hierarchy of a snapshot with unique pids, the roots and the pids
/// with a parent divide the known pids between them.
pub proof fn law_roots_and_children_partition(records: Seq<ProcessRecord>, pid: u32)
    requires
        distinct_pids(records),
    ensures
        ({
            let t = ProcessTree::of(records);
            &&& t.info.contains_key(pid) <==> t.roots.contains(pid) || t.parents.contains_key(pid)
            &&& !(t.roots.contains(pid) && t.parents.contains_key(pid))
        }),
{
    lemma_of_linked(records);
}

/// Every key of the hierarchy comes from the snapshot: a known pid is the
/// pid of a retained record, and a pid with a child list is that or the
/// parent of one.
pub proof fn law_keys_come_from_snapshot(records: Seq<ProcessRecord>, pid: u32)
    ensures
        ({
            let t = ProcessTree::of(records);
            &&& t.info.contains_key(pid) ==> exists|i: int|
                0 <= i < records.len() && !records[i].thread && records[i].pid == pid
            &&& t.children.contains_key(pid) ==> exists|i: int|
                0 <= i < records.len() && !records[i].thread && (records[i].pid == pid
                    || records[i].parent == Some(pid))
        }),
    decreases records.len(),
{
    lemma_known(records, pid);
    if records.len() > 0 {
        let front = records.drop_last();
        law_keys_come_from_snapshot(front, pid);
        if ProcessTree::of(records).children.contains_key(pid) {
            if ProcessTree::of(front).children.contains_key(pid) {
                let i = choose|i: int|
                    0 <= i < front.len() && !front[i].thread && (front[i].pid == pid
                        || front[i].parent == Some(pid));
                assert(records[i] == front[i]);
            } else {
                let last = records.len() - 1;
                assert(!records[last].thread && (records[last].pid == pid || records[last].parent
                    == Some(pid)));
            }
        }
    }
}

/// A pid is known exactly if a retained record carries it.
pub proof fn lemma_known(records: Seq<ProcessRecord>, pid: u32)
    ensures
        ProcessTree::of(records).info.contains_key(pid) <==> exists|i: int|
            0 <= i < records.len() && !records[i].thread && records[i].pid == pid,
    decreases records.len(),
{
    if records.len() > 0 {
        let front = records.drop_last();
        lemma_known(front, pid);
        if ProcessTree::of(records).info.contains_key(pid) {
            if !records.last().thread && records.last().pid == pid {
                assert(!records[records.len() - 1].thread && records[records.len() - 1].pid == pid);
            } else {
                let i = choose|i: int|
                    0 <= i < front.len() && !front[i].thread && front[i].pid == pid;
                assert(!records[i].thread && records[i].pid == pid);
            }
        }
        if exists|i: int| 0 <= i < records.len() && !records[i].thread && records[i].pid == pid {
            let i = choose|i: int|
                0 <= i < records.len() && !records[i].thread && records[i].pid == pid;
            if i < front.len() {
                assert(!front[i].thread && front[i].pid == pid);
            }
        }
    }
}

/// Observing a process whose pid is new keeps the links consistent.
pub proof fn lemma_observe_linked(t: ProcessTree, r: ProcessRecord)
    requires
        t.linked(),
        r.thread || !t.info.contains_key(r.pid),
    ensures
        t.observe(r).linked(),
{
    if !r.thread {
        let u = t.observe(r);
        let listed = t.children.insert(r.pid, t.kids(r.pid));
        assert(!t.order.contains(r.pid));
        assert(!t.roots.contains(r.pid));
        assert(!t.parents.contains_key(r.pid));
        assert forall|p: u32| u.order.contains(p) <==> u.info.contains_key(p) by {
            if u.order.contains(p) {
                let i = choose|i: int| 0 <= i < u.order.len() && u.order[i] == p;
                if i < t.order.len() {
                    assert(t.order[i] == p);
                }
            }
            if t.order.contains(p) {
                let i = choose|i: int| 0 <= i < t.order.len() && t.order[i] == p;
                assert(u.order[i] == p);
            }
            assert(u.order[t.order.len() as int] == r.pid);
        }
        assert forall|p: u32, i: int|
            t.children.contains_key(p) && 0 <= i < t.children[p].len() implies t.children[p][i]
            != r.pid by {
            assert(t.parents.contains_key(t.children[p][i]));
        }
        match r.parent {
            Some(pp) => {
                let grown = t.kids(pp).push(r.pid);
                assert(u.children =~= listed.insert(pp, if pp == r.pid {
                    t.kids(r.pid).push(r.pid)
                } else {
                    grown
                }));
                assert(u.children[pp].last() == r.pid);
                assert(u.roots == t.roots);
                assert forall|p: u32| #[trigger]
                    u.children.contains_key(p) implies u.children[p].no_duplicates() by {
                    if p != pp && p != r.pid {
                        assert(t.children.contains_key(p));
                    }
                }
                assert forall|p: u32, i: int|
                    u.children.contains_key(p) && 0 <= i < u.children[p].len()
                    implies u.parents.contains_key(#[trigger] u.children[p][i])
                    && u.parents[u.children[p][i]] == p by {
                    if p == pp {
                        if i < t.kids(pp).len() {
                            assert(u.children[p][i] == t.children[p][i]);
                        }
                    } else if p != r.pid {
                        assert(u.children[p][i] == t.children[p][i]);
                    } else {
                        assert(u.children[p][i] == t.children[p][i]);
                    }
                }
                assert forall|c: u32| #[trigger]
                    u.parents.contains_key(c) implies u.children.contains_key(u.parents[c])
                    && u.children[u.parents[c]].contains(c) by {
                    if c != r.pid {
                        let q = t.parents[c];
                        assert(t.children[q].contains(c));
                        let i = choose|i: int| 0 <= i < t.children[q].len() && t.children[q][i] == c;
                        assert(u.children[q][i] == c);
                    }
                }
            },
            None => {
                assert(u.children == listed);
                assert(u.parents == t.parents);
                assert(u.roots.no_duplicates());
                assert forall|p: u32|
                    u.info.contains_key(p) implies (u.roots.contains(p) <==> !u.parents.contains_key(
                    p,
                )) by {
                    if p == r.pid {
                        assert(u.roots[t.roots.len() as int] == p);
                    } else {
                        if t.roots.contains(p) {
                            let i = choose|i: int| 0 <= i < t.roots.len() && t.roots[i] == p;
                            assert(u.roots[i] == p);
                        }
                        if u.roots.contains(p) {
                            let i = choose|i: int| 0 <= i < u.roots.len() && u.roots[i] == p;
                            assert(t.roots[i] == p);
                        }
                    }
                }
                assert forall|p: u32| u.roots.contains(p) implies u.info.contains_key(p) by {
                    let i = choose|i: int| 0 <= i < u.roots.len() && u.roots[i] == p;
                    if i < t.roots.len() {
                        assert(t.roots[i] == p);
                        assert(t.roots.contains(p));
                    }
                }
                assert forall|p: u32, i: int|
                    u.children.contains_key(p) && 0 <= i < u.children[p].len()
                    implies u.parents.contains_key(#[trigger] u.children[p][i])
                    && u.parents[u.children[p][i]] == p by {
                    assert(u.children[p][i] == t.children[p][i]);
                }
            },
        }
    }
}

/// The hierarchy of a snapshot with unique pids has consistent links.
pub proof fn lemma_of_linked(records: Seq<ProcessRecord>)
    requires
        distinct_pids(records),
    ensures
        ProcessTree::of(records).linked(),
    decreases records.len(),
{
    if records.len() > 0 {
        let front = records.drop_last();
        let r = records.last();
        assert(distinct_pids(front)) by {
            assert forall|i: int, j: int|
                0 <= i < j < front.len() && !front[i].thread && !front[j].thread
                implies front[i].pid != front[j].pid by {
                assert(front[i] == records[i] && front[j] == records[j]);
            }
        }
        lemma_of_linked(front);
        lemma_known(front, r.pid);
        if !r.thread && ProcessTree::of(front).info.contains_key(r.pid) {
            let i = choose|i: int| 0 <= i < front.len() && !front[i].thread && front[i].pid == r.pid;
            assert(records[i] == front[i]);
            assert(records[records.len() - 1] == r);
        }
        lemma_observe_linked(ProcessTree::of(front), r);
    }
}

} // verus!
