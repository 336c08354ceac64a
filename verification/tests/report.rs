use upstate::conf::Config;
use upstate::fmt::Format;
use upstate::proc::ProcessMap;
use upstate::report::{
    arrange, collect, detail, elapsed, find, printitem, procsummary, Mark, ProcItem, SortBy,
};
use upstate::tree::ProcessRecord;

fn record(pid: u32, parent: Option<u32>, cmd: &str, name: &str, start: u64) -> ProcessRecord {
    ProcessRecord {
        pid,
        parent,
        cmd: cmd.split(' ').map(|w| w.to_string()).collect(),
        cpu_time: pid as u64 * 1000,
        memory: pid as u64 * 1024,
        thread: false,
        name: name.to_string(),
        start_time: start,
        has_exe: true,
    }
}

fn snapshot() -> Vec<ProcessRecord> {
    let mut kernel = record(2, Some(1), "", "kthreadd", 0);
    kernel.has_exe = false;
    kernel.memory = 0;
    vec![
        record(1, None, "/sbin/init", "init", 0),
        kernel,
        record(30, Some(1), "nginx: master", "nginx", 100),
        record(31, Some(30), "nginx: worker", "nginx", 110),
        record(20, Some(1), "/usr/sbin/sshd", "sshd", 50),
        record(40, Some(1), "cron -f", "cron", 60),
    ]
}

fn item(pid: u32, cpu: u64, rss: u64, uptime: u64) -> ProcItem {
    ProcItem { pid, name: format!("p{}", pid), cpu, rss, uptime, warn: false, msg: String::new() }
}

fn pids(items: &Vec<ProcItem>) -> Vec<u32> {
    items.iter().map(|i| i.pid).collect()
}

#[test]
fn elapsed_below_a_day_is_a_clock() {
    assert_eq!(elapsed(0), "00:00:00");
    assert_eq!(elapsed(59), "00:00:59");
    assert_eq!(elapsed(60), "00:01:00");
    assert_eq!(elapsed(3661), "01:01:01");
    assert_eq!(elapsed(86399), "23:59:59");
}

#[test]
fn elapsed_from_a_day_on_counts_days() {
    assert_eq!(elapsed(86400), "1 days");
    assert_eq!(elapsed(2 * 86400 + 5), "2 days");
    assert_eq!(elapsed(u64::MAX), "213503982334601 days");
}

#[test]
fn detail_joins_the_figures() {
    assert_eq!(detail(5, 86400, "1.5 MiB"), "cpu 00:00:05 \u{2219} up 1 days \u{2219} 1.5 MiB rss");
}

#[test]
fn find_returns_the_first_record() {
    let snap = snapshot();
    assert_eq!(find(&snap, 20).map(|r| r.name.clone()), Some("sshd".to_string()));
    assert!(find(&snap, 99).is_none());
}

#[test]
fn collect_lists_configured_then_other_services() {
    let snap = snapshot();
    let procs = ProcessMap::new(&snap);
    let config = Config::new(&vec!["web - nginx\ndb - postgres\n-opt - nothing".to_string()]);
    let found = config.all(&procs, &vec![]);
    let (items, errors) = collect(&snap, &procs, &found, true, 1000);
    assert_eq!(errors, 1);
    // Both nginx processes resolve to pid 30, which is listed once; the
    // kernel thread is left out; the rest follows in ascending pid order.
    assert_eq!(pids(&items), vec![30, 0, 20, 40]);
    assert_eq!(items[0].name, "web");
    assert_eq!(items[0].cpu, 61);
    assert_eq!(items[0].rss, 61 * 1024);
    assert_eq!(items[0].uptime, 900);
    assert!(items[0].warn);
    assert_eq!(items[0].msg, "multiple matching processes");
    assert_eq!(items[1].name, "db");
    assert_eq!(items[1].msg, "service not running");
    assert!(!items[1].warn);
    assert_eq!((items[1].cpu, items[1].rss, items[1].uptime), (0, 0, 0));
    assert_eq!(items[2].name, "sshd");
    assert!(items[2].warn);
    assert_eq!(items[2].msg, "");
    assert_eq!(items[2].uptime, 950);
    assert_eq!(items[3].name, "cron");
}

#[test]
fn collect_without_others() {
    let snap = snapshot();
    let procs = ProcessMap::new(&snap);
    let config = Config::new(&vec!["ssh - sshd".to_string()]);
    let found = config.all(&procs, &vec![]);
    let (items, errors) = collect(&snap, &procs, &found, false, 1000);
    assert_eq!(errors, 0);
    assert_eq!(pids(&items), vec![20]);
    assert!(!items[0].warn);
}

#[test]
fn collect_counts_every_missing_service() {
    let snap = snapshot();
    let procs = ProcessMap::new(&snap);
    let config = Config::new(&vec!["a - aaa\nb - bbb\nc - ccc".to_string()]);
    let found = config.all(&procs, &vec![]);
    let (items, errors) = collect(&snap, &procs, &found, false, 1000);
    assert_eq!(errors, 3);
    assert_eq!(pids(&items), vec![0, 0, 0]);
}

#[test]
fn collect_skips_a_pid_the_snapshot_lacks() {
    let snap = vec![record(8, Some(3), "orphan", "orphan", 0)];
    let procs = ProcessMap::new(&snap);
    let config = Config::new(&vec!["o - orphan".to_string()]);
    let found = config.all(&procs, &vec![]);
    assert_eq!(found.len(), 1);
    assert_eq!(found[0].1, 3);
    let (items, errors) = collect(&snap, &procs, &found, true, 1000);
    assert_eq!(errors, 0);
    assert!(items.is_empty());
}

#[test]
fn arrange_sorts_by_falling_figure_and_keeps_ties_in_order() {
    let items = vec![item(1, 5, 10, 7), item(2, 9, 10, 3), item(3, 5, 30, 7), item(4, 7, 20, 9)];
    assert_eq!(pids(&arrange(items, Some(SortBy::Cpu), None)), vec![2, 4, 1, 3]);
    let items = vec![item(1, 5, 10, 7), item(2, 9, 10, 3), item(3, 5, 30, 7), item(4, 7, 20, 9)];
    assert_eq!(pids(&arrange(items, Some(SortBy::Rss), None)), vec![3, 4, 1, 2]);
    let items = vec![item(1, 5, 10, 7), item(2, 9, 10, 3), item(3, 5, 30, 7), item(4, 7, 20, 9)];
    assert_eq!(pids(&arrange(items, Some(SortBy::Uptime), None)), vec![4, 1, 3, 2]);
}

#[test]
fn arrange_limits_after_sorting() {
    let items = vec![item(1, 5, 0, 0), item(2, 9, 0, 0), item(3, 7, 0, 0)];
    assert_eq!(pids(&arrange(items, Some(SortBy::Cpu), Some(2))), vec![2, 3]);
    let items = vec![item(1, 5, 0, 0), item(2, 9, 0, 0), item(3, 7, 0, 0)];
    assert_eq!(pids(&arrange(items, None, Some(2))), vec![1, 2]);
    let items = vec![item(1, 5, 0, 0), item(2, 9, 0, 0)];
    assert_eq!(pids(&arrange(items, None, Some(5))), vec![1, 2]);
    let items = vec![item(1, 5, 0, 0), item(2, 9, 0, 0)];
    assert_eq!(pids(&arrange(items, None, Some(0))), Vec::<u32>::new());
    let items = vec![item(1, 5, 0, 0), item(2, 9, 0, 0)];
    assert_eq!(pids(&arrange(items, None, None)), vec![1, 2]);
}

#[test]
fn printitem_healthy_service() {
    let mut fmt = Format::Json { indent: 4, nl: true, sep: false };
    let it = ProcItem {
        pid: 30,
        name: "web".to_string(),
        cpu: 61,
        rss: 1536 * 1024,
        uptime: 90000,
        warn: false,
        msg: String::new(),
    };
    let text = printitem(&mut fmt, &it);
    assert_eq!(text.mark, Mark::Healthy);
    assert_eq!(text.label, "web [30]");
    assert_eq!(text.detail, "cpu 00:01:01 \u{2219} up 1 days \u{2219} 1.5 MiB rss");
    assert_eq!(text.more, None);
    assert_eq!(
        text.json,
        "\n    { \"pid\": 30, \"name\": \"web\", \"cputime\": 61, \"uptime\": 90000, \"rss\": 1572864 }"
    );
    assert!(matches!(fmt, Format::Json { indent: 4, nl: true, sep: true }));
}

#[test]
fn printitem_sizes_use_binary_units() {
    let mut fmt = Format::Text;
    let mut it = item(7, 0, 0, 0);
    assert_eq!(printitem(&mut fmt, &it).detail, "cpu 00:00:00 \u{2219} up 00:00:00 \u{2219} 0 B rss");
    it.rss = 1024;
    assert_eq!(printitem(&mut fmt, &it).detail, "cpu 00:00:00 \u{2219} up 00:00:00 \u{2219} 1 KiB rss");
    it.rss = 5 * 1024 * 1024 * 1024 + 300 * 1024 * 1024;
    assert_eq!(
        printitem(&mut fmt, &it).detail,
        "cpu 00:00:00 \u{2219} up 00:00:00 \u{2219} 5.3 GiB rss"
    );
}

#[test]
fn printitem_missing_service() {
    let mut fmt = Format::Json { indent: 4, nl: true, sep: true };
    let it = ProcItem {
        pid: 0,
        name: "db".to_string(),
        cpu: 0,
        rss: 0,
        uptime: 0,
        warn: false,
        msg: "service not running".to_string(),
    };
    let text = printitem(&mut fmt, &it);
    assert_eq!(text.mark, Mark::Failure);
    assert_eq!(text.label, "db [0]");
    assert_eq!(text.detail, "service not running");
    assert_eq!(text.more, None);
    assert_eq!(
        text.json,
        ",\n    { \"pid\": 0, \"name\": \"db\", \"error\": \"service not running\" }"
    );
}

#[test]
fn printitem_warnings() {
    let mut fmt = Format::Json { indent: 4, nl: true, sep: true };
    let mut it = item(9, 1, 2, 3);
    it.warn = true;
    let text = printitem(&mut fmt, &it);
    assert_eq!(text.mark, Mark::Warning);
    assert_eq!(text.more, None);
    assert!(text.json.ends_with(", \"rss\": 2, \"warning\": \"not listed in config\" }"));
    it.msg = "multiple matching processes".to_string();
    let text = printitem(&mut fmt, &it);
    assert_eq!(text.mark, Mark::Warning);
    assert_eq!(text.more, Some("multiple matching processes".to_string()));
    assert!(text.json.ends_with(", \"rss\": 2, \"warning\": \"multiple matching processes\" }"));
}

#[test]
fn printitem_in_text_form_has_no_json() {
    let mut fmt = Format::Text;
    let text = printitem(&mut fmt, &item(9, 1, 2, 3));
    assert_eq!(text.json, "");
    assert_eq!(text.label, "p9 [9]");
    assert!(matches!(fmt, Format::Text));
}

#[test]
fn procsummary_writes_the_whole_list() {
    let snap = snapshot();
    let procs = ProcessMap::new(&snap);
    let config = Config::new(&vec!["ssh - sshd\ndb - postgres".to_string()]);
    let mut fmt = Format::Json { indent: 2, nl: true, sep: true };
    let out = procsummary(&snap, &procs, &mut fmt, &config, &vec![], true, Some(SortBy::Rss), Some(3), 1000);
    assert_eq!(out.errors, 1);
    assert_eq!(out.open, ",\n  \"services\": [");
    let labels: Vec<&str> = out.items.iter().map(|t| t.label.as_str()).collect();
    assert_eq!(labels, vec!["nginx [30]", "cron [40]", "ssh [20]"]);
    assert!(out.items[0].json.starts_with("\n    { \"pid\": 30,"));
    assert!(out.items[1].json.starts_with(",\n    { \"pid\": 40,"));
    assert_eq!(out.close, "\n  ]");
    assert!(matches!(fmt, Format::Json { indent: 2, nl: true, sep: true }));
}

#[test]
fn procsummary_of_nothing() {
    let snap = Vec::new();
    let procs = ProcessMap::new(&snap);
    let mut fmt = Format::Json { indent: 2, nl: true, sep: false };
    let out = procsummary(&snap, &procs, &mut fmt, &Config::empty(), &vec![], true, None, None, 0);
    assert_eq!(out.errors, 0);
    assert!(out.items.is_empty());
    assert_eq!(out.open, "\n  \"services\": [");
    assert_eq!(out.close, "\n  ]");
    assert!(matches!(fmt, Format::Json { indent: 2, nl: true, sep: false }));
}

#[test]
fn promoted_duplicates_are_listed_once() {
    let snap = vec![
        record(1, None, "init", "init", 0),
        record(5, Some(1), "supervisord", "supervisord", 10),
        record(21, Some(5), "redis worker a", "redis", 20),
        record(22, Some(5), "redis worker b", "redis", 20),
        record(23, Some(5), "redis worker c", "redis", 20),
    ];
    let procs = ProcessMap::new(&snap);
    let config = Config::new(&vec!["*cache - redis".to_string()]);
    let found = config.all(&procs, &vec![]);
    assert_eq!(found.len(), 3);
    let (items, errors) = collect(&snap, &procs, &found, false, 100);
    assert_eq!(errors, 0);
    assert_eq!(pids(&items), vec![5]);
    assert_eq!(items[0].name, "cache");
    assert_eq!(items[0].msg, "");
    assert!(!items[0].warn);
}
