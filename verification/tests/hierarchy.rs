use upstate::proc::ProcessMap;
use upstate::tree::ProcessRecord;

fn record(pid: u32, parent: Option<u32>, cmd: &str, cpu_ms: u64, rss: u64) -> ProcessRecord {
    ProcessRecord {
        pid,
        parent,
        cmd: cmd.split(' ').filter(|w| !w.is_empty()).map(|w| w.to_string()).collect(),
        cpu_time: cpu_ms,
        memory: rss,
        thread: false,
        name: String::new(),
        start_time: 0,
        has_exe: true,
    }
}

fn thread(pid: u32, parent: Option<u32>) -> ProcessRecord {
    let mut r = record(pid, parent, "worker thread", 5000, 4096);
    r.thread = true;
    r
}

/// init(1) -> sshd(10) -> shell(20) -> editor(30); init(1) -> cron(11)
fn sample() -> Vec<ProcessRecord> {
    vec![
        record(1, None, "/sbin/init", 1000, 100),
        record(10, Some(1), "/usr/sbin/sshd -D", 2000, 200),
        record(11, Some(1), "/usr/sbin/cron -f", 3000, 300),
        record(20, Some(10), "-bash", 4000, 400),
        record(30, Some(20), "vim notes.txt", 5999, 500),
    ]
}

#[test]
fn parentless_process_is_a_service() {
    let procs = ProcessMap::new(&sample());
    assert!(procs.is_service(&1));
}

#[test]
fn unknown_pid_is_a_service_of_its_own() {
    let procs = ProcessMap::new(&sample());
    assert!(procs.is_service(&4242));
    assert_eq!(procs.as_service(&4242), 4242);
    assert_eq!(procs.service_by_pid(&4242), None);
}

#[test]
fn child_of_a_root_is_a_service() {
    let procs = ProcessMap::new(&sample());
    assert!(procs.is_service(&10));
    assert!(procs.is_service(&11));
    assert!(!procs.is_service(&20));
    assert!(!procs.is_service(&30));
}

#[test]
fn promotion_takes_a_single_hop() {
    let procs = ProcessMap::new(&sample());
    assert_eq!(procs.as_service(&1), 1);
    assert_eq!(procs.as_service(&10), 10);
    assert_eq!(procs.as_service(&20), 10);
    // The grandchild of a service stays under its own pid.
    assert_eq!(procs.as_service(&30), 30);
}

#[test]
fn promotion_is_idempotent() {
    let procs = ProcessMap::new(&sample());
    for pid in [1u32, 10, 11, 20, 30, 99] {
        let once = procs.as_service(&pid);
        assert_eq!(procs.as_service(&once), once);
    }
}

#[test]
fn service_by_pid_promotes_known_processes() {
    let procs = ProcessMap::new(&sample());
    assert_eq!(procs.service_by_pid(&20), Some(10));
    assert_eq!(procs.service_by_pid(&30), Some(30));
    assert_eq!(procs.service_by_pid(&1), Some(1));
    assert_eq!(procs.service_by_pid(&0), None);
}

#[test]
fn services_are_the_children_of_the_roots() {
    let procs = ProcessMap::new(&sample());
    assert_eq!(procs.services(), vec![10, 11]);
}

#[test]
fn services_follow_root_order() {
    let snapshot = vec![
        record(2, None, "kthreadd", 0, 0),
        record(1, None, "init", 0, 0),
        record(7, Some(1), "a", 0, 0),
        record(5, Some(2), "b", 0, 0),
        record(6, Some(1), "c", 0, 0),
    ];
    let procs = ProcessMap::new(&snapshot);
    assert_eq!(procs.services(), vec![5, 7, 6]);
}

#[test]
fn a_childless_root_contributes_nothing() {
    let procs = ProcessMap::new(&vec![record(1, None, "init", 0, 0)]);
    assert_eq!(procs.services(), Vec::<u32>::new());
}

#[test]
fn stat_sums_the_whole_subtree() {
    let procs = ProcessMap::new(&sample());
    // CPU time is kept in whole seconds: 5999 ms count as 5 s.
    assert_eq!(procs.stat(&30), (5, 500));
    assert_eq!(procs.stat(&20), (9, 900));
    assert_eq!(procs.stat(&10), (11, 1100));
    assert_eq!(procs.stat(&11), (3, 300));
    assert_eq!(procs.stat(&1), (15, 1500));
}

#[test]
fn stat_is_own_plus_children() {
    let procs = ProcessMap::new(&sample());
    let (c10, r10) = procs.stat(&10);
    let (c11, r11) = procs.stat(&11);
    assert_eq!(procs.stat(&1), (1 + c10 + c11, 100 + r10 + r11));
}

#[test]
fn stat_of_unknown_pid_is_zero() {
    let procs = ProcessMap::new(&sample());
    assert_eq!(procs.stat(&77), (0, 0));
}

#[test]
fn stat_is_stable_across_calls() {
    let procs = ProcessMap::new(&sample());
    assert_eq!(procs.stat(&1), procs.stat(&1));
}

#[test]
fn threads_are_invisible() {
    let mut snapshot = sample();
    snapshot.push(thread(40, Some(10)));
    snapshot.push(record(41, Some(40), "child of a thread", 1000, 10));
    let procs = ProcessMap::new(&snapshot);
    assert_eq!(procs.service_by_pid(&40), None);
    assert_eq!(procs.stat(&40), (0, 0));
    assert_eq!(procs.stat(&10), (11, 1100));
    assert_eq!(procs.services(), vec![10, 11]);
    // The thread has no recorded parent, so its child is promoted to it.
    assert_eq!(procs.as_service(&41), 40);
    assert_eq!(procs.stat(&41), (1, 10));
}

#[test]
fn parent_outside_the_snapshot() {
    let procs = ProcessMap::new(&vec![record(8, Some(3), "orphan", 2000, 64)]);
    assert_eq!(procs.services(), Vec::<u32>::new());
    assert!(!procs.is_service(&8));
    assert_eq!(procs.as_service(&8), 3);
    assert_eq!(procs.service_by_pid(&8), Some(3));
    assert_eq!(procs.service_by_pid(&3), None);
    assert_eq!(procs.stat(&8), (2, 64));
    assert_eq!(procs.stat(&3), (0, 0));
}

#[test]
fn child_listed_before_its_parent() {
    let snapshot = vec![
        record(20, Some(10), "worker", 1000, 1),
        record(10, Some(1), "master", 1000, 2),
        record(1, None, "init", 1000, 4),
    ];
    let procs = ProcessMap::new(&snapshot);
    assert_eq!(procs.services(), vec![10]);
    assert_eq!(procs.stat(&1), (3, 7));
    assert_eq!(procs.as_service(&20), 10);
}

#[test]
fn command_line_is_joined_by_single_spaces() {
    let procs = ProcessMap::new(&sample());
    assert_eq!(procs.services_by_cmd("sshd -D"), vec![10]);
    assert_eq!(procs.services_by_cmd("sshd  -D"), Vec::<u32>::new());
}

#[test]
fn services_by_cmd_matches_substrings_case_sensitively() {
    let procs = ProcessMap::new(&sample());
    assert_eq!(procs.services_by_cmd("sbin"), vec![1, 10, 11]);
    assert_eq!(procs.services_by_cmd("notes.txt"), vec![30]);
    assert_eq!(procs.services_by_cmd("no such thing"), Vec::<u32>::new());
}

#[test]
fn services_by_cmd_matches_regex_case_insensitively() {
    let procs = ProcessMap::new(&sample());
    assert_eq!(procs.services_by_cmd("SSHD"), vec![10]);
    assert_eq!(procs.services_by_cmd("^/usr/sbin/(sshd|cron)"), vec![10, 11]);
    assert_eq!(procs.services_by_cmd("^vim$"), Vec::<u32>::new());
}

#[test]
fn services_by_cmd_promotes_and_keeps_duplicates() {
    let snapshot = vec![
        record(1, None, "init", 0, 0),
        record(10, Some(1), "supervisor", 0, 0),
        record(21, Some(10), "redis-server *:6379", 0, 0),
        record(22, Some(10), "redis-server *:6380", 0, 0),
    ];
    let procs = ProcessMap::new(&snapshot);
    assert_eq!(procs.services_by_cmd("redis"), vec![10, 10]);
}

#[test]
fn invalid_regex_falls_back_to_substring() {
    let snapshot = vec![
        record(1, None, "init", 0, 0),
        record(10, Some(1), "java -cp lib(x86 Main", 0, 0),
        record(11, Some(1), "java -cp LIB(X86 Main", 0, 0),
    ];
    let procs = ProcessMap::new(&snapshot);
    // "lib(x86" is no valid expression: only the literal occurrence counts.
    assert_eq!(procs.services_by_cmd("lib(x86"), vec![10]);
}

#[test]
fn empty_pattern_matches_everything() {
    let procs = ProcessMap::new(&sample());
    assert_eq!(procs.services_by_cmd(""), vec![1, 10, 11, 10, 30]);
}

#[test]
fn empty_snapshot() {
    let procs = ProcessMap::new(&Vec::new());
    assert_eq!(procs.services(), Vec::<u32>::new());
    assert_eq!(procs.stat(&1), (0, 0));
    assert_eq!(procs.services_by_cmd("x"), Vec::<u32>::new());
}

#[test]
fn try_new_accepts_a_forest() {
    let procs = ProcessMap::try_new(&sample()).unwrap();
    assert_eq!(procs.stat(&1), (15, 1500));
    assert!(ProcessMap::try_new(&Vec::new()).is_some());
}

#[test]
fn try_new_rejects_a_repeated_pid() {
    let mut snapshot = sample();
    snapshot.push(record(10, Some(1), "again", 0, 0));
    assert!(ProcessMap::try_new(&snapshot).is_none());
}

#[test]
fn try_new_allows_a_thread_to_share_a_pid() {
    let mut snapshot = sample();
    snapshot.push(thread(10, Some(1)));
    assert!(ProcessMap::try_new(&snapshot).is_some());
}

#[test]
fn try_new_rejects_cycles() {
    assert!(ProcessMap::try_new(&vec![record(5, Some(5), "self", 0, 0)]).is_none());
    let ring = vec![
        record(1, None, "init", 0, 0),
        record(5, Some(7), "a", 0, 0),
        record(6, Some(5), "b", 0, 0),
        record(7, Some(6), "c", 0, 0),
    ];
    assert!(ProcessMap::try_new(&ring).is_none());
}

#[test]
fn try_new_accepts_a_long_chain() {
    let mut chain = vec![record(1, None, "init", 1000, 1)];
    for pid in 2..200u32 {
        chain.push(record(pid, Some(pid - 1), "link", 1000, 1));
    }
    chain.reverse();
    let procs = ProcessMap::try_new(&chain).unwrap();
    assert_eq!(procs.stat(&1), (199, 199));
    assert_eq!(procs.stat(&150), (50, 50));
}

#[test]
fn try_new_rejects_sums_beyond_64_bits() {
    let big = vec![
        record(1, None, "init", 0, u64::MAX),
        record(2, Some(1), "child", 0, 1),
    ];
    assert!(ProcessMap::try_new(&big).is_none());
    let fine = vec![
        record(1, None, "init", 0, u64::MAX - 1),
        record(2, Some(1), "child", 0, 1),
    ];
    assert_eq!(ProcessMap::try_new(&fine).unwrap().stat(&1), (0, u64::MAX));
    // Separate trees are summed separately.
    let apart = vec![
        record(1, None, "init", 0, u64::MAX),
        record(2, None, "other", 0, u64::MAX),
    ];
    assert!(ProcessMap::try_new(&apart).is_some());
}
