use upstate::fmt::Format;
use upstate::machine::{cpusummary, is_sized, memsummary, storagesummary, DiskRecord};

const KIB: u64 = 1024;
const MIB: u64 = 1024 * 1024;
const GIB: u64 = 1024 * 1024 * 1024;

fn disk(known: bool, device: &str, total: u64, available: u64, mount: &str) -> DiskRecord {
    DiskRecord {
        known,
        device: device.as_bytes().to_vec(),
        name: device.to_string(),
        total,
        available,
        percent: "25.0".to_string(),
        mount: mount.to_string(),
    }
}

#[test]
fn load_line() {
    let mut fmt = Format::Json { indent: 2, nl: true, sep: false };
    let out = cpusummary(&mut fmt, 8, 100, "0.10, 0.20, 0.30", 312);
    assert_eq!(out.key, "loadavg:");
    assert_eq!(out.value, "0.10, 0.20, 0.30");
    assert_eq!(out.detail, "up 00:01:40 \u{2219} 312 processes \u{2219} 8 cores");
    assert_eq!(
        out.json,
        "\n  \"cores\": 8,\n  \"uptime\": 100,\n  \"loadavg\": [0.10, 0.20, 0.30],\n  \"processes\": 312"
    );
    assert!(matches!(fmt, Format::Json { indent: 2, nl: true, sep: true }));
}

#[test]
fn load_line_in_text_form() {
    let mut fmt = Format::Text;
    let out = cpusummary(&mut fmt, 1, 90000, "1.00, 1.00, 1.00", 1);
    assert_eq!(out.detail, "up 1 days \u{2219} 1 processes \u{2219} 1 cores");
    assert_eq!(out.json, "");
}

#[test]
fn memory_line_without_swap() {
    let mut fmt = Format::Json { indent: 2, nl: true, sep: true };
    let out = memsummary(&mut fmt, 8 * GIB, 2 * GIB, 3 * GIB, 5 * GIB, 0, "25.0");
    assert_eq!(out.key, "memory:");
    assert_eq!(out.value, "2 GiB (25.0%) free");
    assert_eq!(out.detail, "5 GiB rss \u{2219} 1 GiB cache \u{2219} 8 GiB total");
    assert_eq!(
        out.json,
        format!(
            ",\n  \"memory\": {{\n    \"total\": {},\n    \"free\": {},\n    \"rss\": {},\n    \"cache\": {},\n    \"swap\": 0\n  }}",
            8 * GIB,
            2 * GIB,
            5 * GIB,
            GIB
        )
    );
    assert!(matches!(fmt, Format::Json { indent: 2, nl: true, sep: true }));
}

#[test]
fn memory_line_with_swap() {
    let mut fmt = Format::Text;
    let out = memsummary(&mut fmt, 8 * GIB, GIB, 4 * GIB, 6 * GIB, 512 * MIB + 51 * MIB, "12.5");
    assert_eq!(out.value, "1 GiB (12.5%) free");
    assert_eq!(
        out.detail,
        "6 GiB rss \u{2219} 3 GiB cache \u{2219} 563 MiB swap \u{2219} 8 GiB total"
    );
    assert_eq!(out.json, "");
}

#[test]
fn cache_is_never_negative() {
    let mut fmt = Format::Text;
    let out = memsummary(&mut fmt, 8 * GIB, 2 * GIB, GIB, 6 * GIB, 0, "25.0");
    assert_eq!(out.detail, "6 GiB rss \u{2219} 0 B cache \u{2219} 8 GiB total");
}

#[test]
fn storage_lists_each_known_device_once() {
    let disks = vec![
        disk(true, "/dev/sda1", 100 * GIB, 25 * GIB, "/"),
        disk(false, "tmpfs", 10, 20, "/run"),
        disk(true, "/dev/sda1", 100 * GIB, 25 * GIB, "/mnt/again"),
        disk(true, "/dev/sdb1", 4 * KIB, KIB, "/boot"),
        disk(true, "tmpfs", GIB, GIB, "/tmp"),
    ];
    assert!(is_sized(&disks));
    let mut fmt = Format::Json { indent: 2, nl: true, sep: true };
    let out = storagesummary(&mut fmt, &disks);
    assert_eq!(out.open, ",\n  \"storage\": [");
    let mounts: Vec<&str> =
        out.disks.iter().map(|d| d.detail.rsplit("on ").next().unwrap()).collect();
    assert_eq!(mounts, vec!["/", "/boot", "/tmp"]);
    assert_eq!(out.disks[0].key, "storage:");
    assert_eq!(out.disks[0].value, "25 GiB (25.0%) free");
    assert_eq!(out.disks[0].detail, "75 GiB used \u{2219} 100 GiB total \u{2219} on /");
    assert_eq!(
        out.disks[0].json,
        format!(
            "\n    {{ \"total\": {}, \"used\": {}, \"free\": {}, \"dev\": \"/dev/sda1\", \"mount\": \"/\" }}",
            100 * GIB,
            75 * GIB,
            25 * GIB
        )
    );
    assert!(out.disks[1].json.starts_with(",\n    { \"total\": 4096, \"used\": 3072,"));
    assert_eq!(out.close, "\n  ]");
    assert!(matches!(fmt, Format::Json { indent: 2, nl: true, sep: true }));
}

#[test]
fn storage_without_disks() {
    let mut fmt = Format::Json { indent: 2, nl: true, sep: true };
    let out = storagesummary(&mut fmt, &vec![]);
    assert_eq!(out.open, ",\n  \"storage\": [");
    assert!(out.disks.is_empty());
    assert_eq!(out.close, "\n  ]");
    assert!(matches!(fmt, Format::Json { indent: 2, nl: true, sep: false }));
}

#[test]
fn inconsistent_figures_only_matter_for_shown_disks() {
    assert!(is_sized(&vec![disk(false, "a", 1, 2, "/a")]));
    assert!(!is_sized(&vec![disk(true, "a", 1, 2, "/a")]));
    assert!(is_sized(&vec![disk(true, "a", 2, 1, "/a"), disk(true, "a", 1, 2, "/b")]));
    assert!(!is_sized(&vec![disk(true, "a", 2, 1, "/a"), disk(true, "b", 1, 2, "/b")]));
}
