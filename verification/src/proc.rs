//! The process hierarchy in executable form.

use std::collections::HashMap;
use std::collections::HashSet;
use vstd::prelude::*;
use crate::order::holds;
use crate::pattern::matches_command;
use crate::text::join;
use crate::forest::{lemma_grounded_is_well_founded, lemma_ungrounded_is_cyclic};
use crate::tree::{
    admissible, distinct_pids, lemma_of_linked, ProcessFacts, ProcessRecord, ProcessTree,
};

verus! {

broadcast use vstd::std_specs::hash::group_hash_axioms;

/// What is kept of one process: its command line, its own CPU seconds and
/// its own resident memory.
pub struct ProcessInfo {
    cmd: String,
    cpu: u64,
    rss: u64,
}

impl View for ProcessInfo {
    type V = ProcessFacts;

    closed spec fn view(&self) -> ProcessFacts {
        ProcessFacts { cmd: self.cmd@, cpu: self.cpu, rss: self.rss }
    }
}

/// Parent and child links, roots and per-process facts of one snapshot.
pub struct ProcessMap {
    order: Vec<u32>,
    roots: Vec<u32>,
    parents: HashMap<u32, u32>,
    children: HashMap<u32, Vec<u32>>,
    info: HashMap<u32, ProcessInfo>,
}

/// The model of the five index structures taken together.
pub open spec fn tree_of(
    order: Seq<u32>,
    roots: Seq<u32>,
    parents: Map<u32, u32>,
    children: Map<u32, Vec<u32>>,
    info: Map<u32, ProcessInfo>,
) -> ProcessTree {
    ProcessTree {
        order,
        roots,
        parents,
        children: children.map_values(|v: Vec<u32>| v@),
        info: info.map_values(|i: ProcessInfo| i@),
    }
}

impl View for ProcessMap {
    type V = ProcessTree;

    closed spec fn view(&self) -> ProcessTree {
        tree_of(self.order@, self.roots@, self.parents@, self.children@, self.info@)
    }
}

/// The index structures while they are being filled, before anything is
/// known about cycles or sums.
struct Links {
    order: Vec<u32>,
    roots: Vec<u32>,
    parents: HashMap<u32, u32>,
    children: HashMap<u32, Vec<u32>>,
    info: HashMap<u32, ProcessInfo>,
}

impl View for Links {
    type V = ProcessTree;

    closed spec fn view(&self) -> ProcessTree {
        tree_of(self.order@, self.roots@, self.parents@, self.children@, self.info@)
    }
}

impl Links {
    /// Indexes a snapshot in one pass.
    fn build(snapshot: &Vec<ProcessRecord>) -> (links: Links)
        ensures
            links@ == ProcessTree::of(snapshot@),
    {
        let mut order: Vec<u32> = Vec::new();
        let mut roots: Vec<u32> = Vec::new();
        let mut parents: HashMap<u32, u32> = HashMap::new();
        let mut children: HashMap<u32, Vec<u32>> = HashMap::new();
        let mut info: HashMap<u32, ProcessInfo> = HashMap::new();
        let mut i: usize = 0;
        assert(tree_of(order@, roots@, parents@, children@, info@) =~= ProcessTree::empty());
        while i < snapshot.len()
            invariant
                i <= snapshot.len(),
                tree_of(order@, roots@, parents@, children@, info@) == ProcessTree::of(
                    snapshot@.take(i as int),
                ),
            decreases snapshot.len() - i,
        {
            let r = &snapshot[i];
            let ghost before = tree_of(order@, roots@, parents@, children@, info@);
            proof {
                assert(snapshot@.take(i + 1).drop_last() == snapshot@.take(i as int));
                assert(snapshot@.take(i + 1).last() == *r);
            }
            if !r.thread {
                let pid = r.pid;
                if !children.contains_key(&pid) {
                    children.insert(pid, Vec::new());
                }
                let ghost listed = children@.map_values(|v: Vec<u32>| v@);
                assert(listed =~= before.children.insert(pid, before.kids(pid)));
                let cmd = join(&r.cmd);
                info.insert(pid, ProcessInfo { cmd, cpu: r.cpu_time / 1000, rss: r.memory });
                order.push(pid);
                match r.parent {
                    Some(ppid) => {
                        parents.insert(pid, ppid);
                        let mut list = match children.remove(&ppid) {
                            Some(l) => l,
                            None => Vec::new(),
                        };
                        list.push(pid);
                        children.insert(ppid, list);
                        assert(children@.map_values(|v: Vec<u32>| v@) =~= listed.insert(
                            ppid,
                            (if listed.contains_key(ppid) {
                                listed[ppid]
                            } else {
                                Seq::empty()
                            }).push(pid),
                        ));
                    },
                    None => {
                        roots.push(pid);
                    },
                }
                assert(info@.map_values(|i: ProcessInfo| i@) =~= before.info.insert(
                    pid,
                    r.facts(),
                ));
                assert(tree_of(order@, roots@, parents@, children@, info@) =~= before.observe(*r));
            }
            i += 1;
        }
        assert(snapshot@.take(i as int) == snapshot@);
        Links { order, roots, parents, children, info }
    }

    /// Whether the climb from `pid` ends within as many steps as there are
    /// known pids.
    fn reaches_top(&self, pid: u32) -> (ok: bool)
        ensures
            ok == (self@.climb(pid, self@.order.len()) is Some),
    {
        let mut at: u32 = pid;
        let mut fuel: usize = self.order.len();
        loop
            invariant
                (self@.climb(pid, self@.order.len()) is Some) == (self@.climb(at, fuel as nat)
                    is Some),
            decreases fuel,
        {
            match self.parents.get(&at) {
                None => {
                    return true;
                },
                Some(ppid) => {
                    if fuel == 0 {
                        return false;
                    }
                    at = *ppid;
                    fuel -= 1;
                },
            }
        }
    }

    /// Whether the parent links form no cycle.
    fn acyclic(&self) -> (ok: bool)
        requires
            self@.linked(),
        ensures
            ok == self@.well_founded(),
    {
        let mut i: usize = 0;
        while i < self.order.len()
            invariant
                i <= self.order.len(),
                self@.linked(),
                forall|k: int|
                    0 <= k < i ==> (#[trigger] self@.climb(self@.order[k], self@.order.len()))
                        is Some,
            decreases self.order.len() - i,
        {
            if !self.reaches_top(self.order[i]) {
                proof {
                    lemma_ungrounded_is_cyclic(self@, self@.order[i as int]);
                }
                return false;
            }
            i += 1;
        }
        proof {
            assert(self@.grounded());
            lemma_grounded_is_well_founded(self@);
        }
        true
    }

    /// The aggregate of `pid`, unless it exceeds 64 bits.
    fn sum(&self, pid: u32) -> (total: Option<(u64, u64)>)
        requires
            self@.well_founded(),
        ensures
            match total {
                Some(s) => s.0 == self@.stat(pid).0 && s.1 == self@.stat(pid).1,
                None => self@.stat(pid).0 > u64::MAX || self@.stat(pid).1 > u64::MAX,
            },
        decreases (self@.height())(pid),
    {
        proof {
            self@.lemma_height_ranks();
        }
        let mut cpu: u64 = 0;
        let mut rss: u64 = 0;
        if let Some(info) = self.info.get(&pid) {
            cpu = info.cpu;
            rss = info.rss;
            if let Some(child_pids) = self.children.get(&pid) {
                let mut i: usize = 0;
                while i < child_pids.len()
                    invariant
                        i <= child_pids.len(),
                        self@.well_founded(),
                        self@.ranked_by(self@.height()),
                        self@.children.contains_key(pid),
                        child_pids@ == self@.children[pid],
                        self@.info.contains_key(pid),
                        info@ == self@.info[pid],
                        cpu == info@.cpu + self@.stat_below(pid, i as nat).0,
                        rss == info@.rss + self@.stat_below(pid, i as nat).1,
                    decreases child_pids.len() - i,
                {
                    proof {
                        self@.lemma_stat_below_grows(pid, (i + 1) as nat, child_pids@.len());
                    }
                    let below = match self.sum(child_pids[i]) {
                        Some(below) => below,
                        None => {
                            return None;
                        },
                    };
                    cpu = match cpu.checked_add(below.0) {
                        Some(cpu) => cpu,
                        None => {
                            return None;
                        },
                    };
                    rss = match rss.checked_add(below.1) {
                        Some(rss) => rss,
                        None => {
                            return None;
                        },
                    };
                    i += 1;
                }
            }
        }
        Some((cpu, rss))
    }

    /// Whether every aggregate fits in 64 bits.
    fn fits(&self) -> (ok: bool)
        requires
            self@.linked(),
            self@.well_founded(),
        ensures
            ok == self@.fits(),
    {
        let mut i: usize = 0;
        while i < self.order.len()
            invariant
                i <= self.order.len(),
                self@.linked(),
                self@.well_founded(),
                forall|k: int|
                    0 <= k < i ==> (#[trigger] self@.stat(self@.order[k])).0 <= u64::MAX
                        && self@.stat(self@.order[k]).1 <= u64::MAX,
            decreases self.order.len() - i,
        {
            if self.sum(self.order[i]).is_none() {
                return false;
            }
            i += 1;
        }
        proof {
            assert forall|p: u32|
                (#[trigger] self@.stat(p)).0 <= u64::MAX && self@.stat(p).1 <= u64::MAX by {
                if self@.info.contains_key(p) {
                    assert(self@.order.contains(p));
                }
            }
        }
        true
    }
}

/// Whether no two retained records of `snapshot` share a pid.
fn has_distinct_pids(snapshot: &Vec<ProcessRecord>) -> (ok: bool)
    ensures
        ok == distinct_pids(snapshot@),
{
    let mut seen: HashSet<u32> = HashSet::new();
    let mut i: usize = 0;
    while i < snapshot.len()
        invariant
            i <= snapshot.len(),
            forall|k: int|
                0 <= k < i && !snapshot@[k].thread ==> seen@.contains(#[trigger] snapshot@[k].pid),
            forall|p: u32|
                seen@.contains(p) ==> exists|k: int|
                    0 <= k < i && !snapshot@[k].thread && #[trigger] snapshot@[k].pid == p,
            forall|a: int, b: int|
                0 <= a < b < i && !snapshot@[a].thread && !snapshot@[b].thread ==> snapshot@[a].pid
                    != snapshot@[b].pid,
        decreases snapshot.len() - i,
    {
        let r = &snapshot[i];
        if !r.thread {
            if seen.contains(&r.pid) {
                return false;
            }
            seen.insert(r.pid);
        }
        i += 1;
    }
    true
}

impl ProcessMap {
    #[verifier::type_invariant]
    closed spec fn inv(&self) -> bool {
        self@.wf()
    }

    /// Builds the hierarchy of a snapshot.
    ///
    /// The snapshot must be admissible: a pid occurs once, the parent links
    /// form no cycle, and no subtree sums to more than 64 bits hold.
    pub fn new(snapshot: &Vec<ProcessRecord>) -> (map: ProcessMap)
        requires
            admissible(snapshot@),
        ensures
            map@ == ProcessTree::of(snapshot@),
            map@.wf(),
    {
        let links = Links::build(snapshot);
        proof {
            lemma_of_linked(snapshot@);
        }
        ProcessMap {
            order: links.order,
            roots: links.roots,
            parents: links.parents,
            children: links.children,
            info: links.info,
        }
    }

    /// Builds the hierarchy of a snapshot if the snapshot is admissible,
    /// and says so if it is not.
    pub fn try_new(snapshot: &Vec<ProcessRecord>) -> (map: Option<ProcessMap>)
        ensures
            match map {
                Some(map) => admissible(snapshot@) && map@ == ProcessTree::of(snapshot@)
                    && map@.wf(),
                None => !admissible(snapshot@),
            },
    {
        if !has_distinct_pids(snapshot) {
            return None;
        }
        let links = Links::build(snapshot);
        proof {
            lemma_of_linked(snapshot@);
        }
        if !links.acyclic() {
            return None;
        }
        if !links.fits() {
            return None;
        }
        Some(
            ProcessMap {
                order: links.order,
                roots: links.roots,
                parents: links.parents,
                children: links.children,
                info: links.info,
            },
        )
    }

    /// Whether `pid` counts as a service.
    pub fn is_service(&self, pid: &u32) -> (yes: bool)
        ensures
            yes == self@.is_service(*pid),
    {
        match self.parents.get(pid) {
            None => true,
            Some(ppid) => holds(&self.roots, *ppid),
        }
    }

    /// The pid under which `pid` is reported.
    pub fn as_service(&self, pid: &u32) -> (service: u32)
        ensures
            service == self@.as_service(*pid),
    {
        if self.is_service(pid) {
            return *pid;
        }
        if let Some(ppid) = self.parents.get(pid) {
            if self.is_service(ppid) {
                return *ppid;
            }
        }
        *pid
    }

    /// The service of `pid`, if `pid` is a known process.
    pub fn service_by_pid(&self, pid: &u32) -> (service: Option<u32>)
        ensures
            service == self@.service_by_pid(*pid),
    {
        if self.info.contains_key(pid) {
            Some(self.as_service(pid))
        } else {
            None
        }
    }

    /// The direct children of every root, one child list after the other.
    pub fn services(&self) -> (pids: Vec<u32>)
        ensures
            pids@ == self@.services(),
    {
        proof {
            use_type_invariant(self);
        }
        let mut pids: Vec<u32> = Vec::new();
        let mut i: usize = 0;
        while i < self.roots.len()
            invariant
                i <= self.roots.len(),
                self@.wf(),
                pids@ == self@.services_upto(i as nat),
            decreases self.roots.len() - i,
        {
            let root = self.roots[i];
            assert(self@.roots.contains(root));
            match self.children.get(&root) {
                Some(kids) => {
                    let mut k: usize = 0;
                    while k < kids.len()
                        invariant
                            k <= kids.len(),
                            pids@ == self@.services_upto(i as nat) + kids@.take(k as int),
                        decreases kids.len() - k,
                    {
                        pids.push(kids[k]);
                        assert(kids@.take(k + 1) == kids@.take(k as int).push(kids@[k as int]));
                        k += 1;
                    }
                    assert(kids@.take(k as int) == kids@);
                },
                None => {},
            }
            i += 1;
        }
        pids
    }

    /// The services of all known processes whose command line contains
    /// `cmd` literally or matches it as a case-insensitive regular
    /// expression. Duplicates are kept; the order is that of the snapshot.
    pub fn services_by_cmd(&self, cmd: &str) -> (pids: Vec<u32>)
        ensures
            pids@ == self@.services_by_cmd(cmd@),
    {
        proof {
            use_type_invariant(self);
        }
        let mut pids: Vec<u32> = Vec::new();
        let mut i: usize = 0;
        while i < self.order.len()
            invariant
                i <= self.order.len(),
                pids@ == self@.order.take(i as int).filter_map(self@.resolve(cmd@)),
            decreases self.order.len() - i,
        {
            let pid = self.order[i];
            proof {
                self@.order.lemma_filter_map_take_succ(self@.resolve(cmd@), i as int);
            }
            if let Some(info) = self.info.get(&pid) {
                if matches_command(info.cmd.as_str(), cmd) {
                    let service = self.as_service(&pid);
                    pids.push(service);
                }
            }
            i += 1;
        }
        assert(self@.order.take(i as int) == self@.order);
        pids
    }

    /// CPU seconds and resident bytes of `pid` together with all of its
    /// descendants; `(0, 0)` for a pid that is not a known process.
    pub fn stat(&self, pid: &u32) -> (sum: (u64, u64))
        ensures
            sum.0 == self@.stat(*pid).0,
            sum.1 == self@.stat(*pid).1,
        decreases (self@.height())(*pid),
    {
        proof {
            use_type_invariant(self);
            self@.lemma_height_ranks();
        }
        let mut cpu: u64 = 0;
        let mut rss: u64 = 0;
        if let Some(info) = self.info.get(pid) {
            cpu = info.cpu;
            rss = info.rss;
            if let Some(child_pids) = self.children.get(pid) {
                let mut i: usize = 0;
                while i < child_pids.len()
                    invariant
                        i <= child_pids.len(),
                        self@.wf(),
                        self@.ranked_by(self@.height()),
                        self@.children.contains_key(*pid),
                        child_pids@ == self@.children[*pid],
                        self@.info.contains_key(*pid),
                        info@ == self@.info[*pid],
                        cpu == info@.cpu + self@.stat_below(*pid, i as nat).0,
                        rss == info@.rss + self@.stat_below(*pid, i as nat).1,
                    decreases child_pids.len() - i,
                {
                    let (c, r) = self.stat(&child_pids[i]);
                    proof {
                        self@.lemma_stat_below_grows(*pid, (i + 1) as nat, child_pids@.len());
                        assert(self@.stat(*pid).0 <= u64::MAX && self@.stat(*pid).1 <= u64::MAX);
                    }
                    cpu += c;
                    rss += r;
                    i += 1;
                }
            }
        }
        (cpu, rss)
    }
}

} // verus!
