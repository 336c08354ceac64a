//! The machine summary of a report: load, memory and storage.
//!
//! Figures that need floating point, such as load averages and percentages,
//! arrive here already written out.

use vstd::prelude::*;
use crate::fmt::{quoted, Format};
use crate::report::{binary_size, elapsed, elapsed_text, size_text};
use crate::text::{decimal_text, digits_of};

verus! {

/// One line of the machine summary, in both output forms.
pub struct SummaryText {
    /// What the line is about.
    pub key: String,
    /// The headline figure.
    pub value: String,
    /// The further figures.
    pub detail: String,
    /// The line in JSON form; empty in text form.
    pub json: String,
}

/// What stands between two figures of a line.
pub open spec fn bullet() -> Seq<char> {
    " \u{2219} "@
}

/// The further figures of the load line.
pub open spec fn cpu_detail(cores: usize, uptime: u64, procs: usize) -> Seq<char> {
    "up "@ + elapsed_text(uptime as nat) + bullet() + digits_of(procs as nat) + " processes"@
        + bullet() + digits_of(cores as nat) + " cores"@
}

/// The members that describe the load in JSON form.
pub open spec fn cpu_json(fmt: Format, cores: usize, uptime: u64, load: Seq<char>, procs: usize) -> Seq<
    char,
> {
    let later = fmt.after_member();
    fmt.member_text("cores"@, digits_of(cores as nat)) + later.member_text(
        "uptime"@,
        digits_of(uptime as nat),
    ) + later.member_text("loadavg"@, "["@ + load + "]"@) + later.member_text(
        "processes"@,
        digits_of(procs as nat),
    )
}

/// Writes the load line. `load` holds the three load averages as they are
/// to be shown.
pub fn cpusummary(fmt: &mut Format, cores: usize, uptime: u64, load: &str, procs: usize) -> (out:
    SummaryText)
    ensures
        out.key@ == "loadavg:"@,
        out.value@ == load@,
        out.detail@ == cpu_detail(cores, uptime, procs),
        out.json@ == cpu_json(*old(fmt), cores, uptime, load@, procs),
        *final(fmt) == old(fmt).after_member(),
{
    let mut detail = String::from_str("up ");
    detail.append(elapsed(uptime).as_str());
    detail.append(" \u{2219} ");
    detail.append(decimal_text(procs as u64).as_str());
    detail.append(" processes");
    detail.append(" \u{2219} ");
    detail.append(decimal_text(cores as u64).as_str());
    detail.append(" cores");
    let mut list = String::from_str("[");
    list.append(load);
    list.append("]");
    let mut json = fmt.json_key_val("cores", decimal_text(cores as u64).as_str());
    json.append(fmt.json_key_val("uptime", decimal_text(uptime).as_str()).as_str());
    json.append(fmt.json_key_val("loadavg", list.as_str()).as_str());
    json.append(fmt.json_key_val("processes", decimal_text(procs as u64).as_str()).as_str());
    let out = SummaryText {
        key: String::from_str("loadavg:"),
        value: String::from_str(load),
        detail,
        json,
    };
    out
}

/// The memory that is available but not free, which is what caches hold.
pub open spec fn cache_of(available: u64, free: u64) -> u64 {
    if available >= free {
        (available - free) as u64
    } else {
        0
    }
}

/// The headline of a line about space: what is free, with its share in
/// percent, where `size` and `percent` are the two as they are to be shown.
pub open spec fn free_text(size: Seq<char>, percent: Seq<char>) -> Seq<char> {
    size + " ("@ + percent + "%) free"@
}

/// The further figures of the memory line. Swap is only mentioned when some
/// is in use.
pub open spec fn mem_detail(total: u64, cache: u64, used: u64, swap: u64) -> Seq<char> {
    binary_size(used) + " rss"@ + bullet() + binary_size(cache) + " cache"@ + bullet() + (if swap
        > 0 {
        binary_size(swap) + " swap"@ + bullet()
    } else {
        Seq::empty()
    }) + binary_size(total) + " total"@
}

/// The object that describes the memory in JSON form.
pub open spec fn mem_json(fmt: Format, total: u64, free: u64, cache: u64, used: u64, swap: u64) -> Seq<
    char,
> {
    let first = fmt.opened(true);
    let later = first.after_member();
    fmt.open_text("memory"@, false) + first.member_text("total"@, digits_of(total as nat))
        + later.member_text("free"@, digits_of(free as nat)) + later.member_text(
        "rss"@,
        digits_of(used as nat),
    ) + later.member_text("cache"@, digits_of(cache as nat)) + later.member_text(
        "swap"@,
        digits_of(swap as nat),
    ) + later.close_text(false)
}

/// Writes the memory line. `percent` is the free share of the total as it
/// is to be shown.
pub fn memsummary(
    fmt: &mut Format,
    total: u64,
    free: u64,
    available: u64,
    used: u64,
    swap: u64,
    percent: &str,
) -> (out: SummaryText)
    requires
        old(fmt).room(1),
    ensures
        out.key@ == "memory:"@,
        out.value@ == free_text(binary_size(free), percent@),
        out.detail@ == mem_detail(total, cache_of(available, free), used, swap),
        out.json@ == mem_json(*old(fmt), total, free, cache_of(available, free), used, swap),
        *final(fmt) == old(fmt).opened(true).after_member().closed(),
{
    let cache: u64 = if available >= free {
        available - free
    } else {
        0
    };
    let mut value = size_text(free);
    value.append(" (");
    value.append(percent);
    value.append("%) free");
    let mut detail = size_text(used);
    detail.append(" rss");
    detail.append(" \u{2219} ");
    detail.append(size_text(cache).as_str());
    detail.append(" cache");
    detail.append(" \u{2219} ");
    let swapped = if swap > 0 {
        let mut swapped = size_text(swap);
        swapped.append(" swap");
        swapped.append(" \u{2219} ");
        swapped
    } else {
        String::new()
    };
    detail.append(swapped.as_str());
    detail.append(size_text(total).as_str());
    detail.append(" total");
    let mut json = fmt.json_open("memory", false, true);
    json.append(fmt.json_key_val("total", decimal_text(total).as_str()).as_str());
    json.append(fmt.json_key_val("free", decimal_text(free).as_str()).as_str());
    json.append(fmt.json_key_val("rss", decimal_text(used).as_str()).as_str());
    json.append(fmt.json_key_val("cache", decimal_text(cache).as_str()).as_str());
    json.append(fmt.json_key_val("swap", decimal_text(swap).as_str()).as_str());
    json.append(fmt.json_close(false).as_str());
    let out = SummaryText { key: String::from_str("memory:"), value, detail, json };
    out
}

/// One mounted file system, as the caller supplies it.
pub struct DiskRecord {
    /// Whether the kind of the disk is known.
    pub known: bool,
    /// The name of the device, as raw bytes.
    pub device: Vec<u8>,
    /// The name of the device for display.
    pub name: String,
    /// The size of the file system in bytes.
    pub total: u64,
    /// The bytes still available.
    pub available: u64,
    /// The available share of the total, as it is to be shown.
    pub percent: String,
    /// Where the file system is mounted.
    pub mount: String,
}

/// Whether the disk at `index` is shown: its kind is known and no earlier
/// shown disk has the same device.
pub open spec fn shown(disks: Seq<DiskRecord>, index: int) -> bool {
    &&& 0 <= index < disks.len()
    &&& disks[index].known
    &&& forall|k: int|
        0 <= k < index && #[trigger] disks[k].known ==> disks[k].device@ != disks[index].device@
}

/// The further figures of a storage line.
pub open spec fn disk_detail(disk: DiskRecord) -> Seq<char> {
    binary_size((disk.total - disk.available) as u64) + " used"@ + bullet() + binary_size(
        disk.total,
    ) + " total"@ + bullet() + "on "@ + disk.mount@
}

/// The object that describes a disk in JSON form.
pub open spec fn disk_json(fmt: Format, disk: DiskRecord) -> Seq<char> {
    let first = fmt.opened(false);
    let later = first.after_member();
    fmt.open_text(Seq::empty(), false) + first.member_text(
        "total"@,
        digits_of(disk.total as nat),
    ) + later.member_text("used"@, digits_of((disk.total - disk.available) as nat))
        + later.member_text("free"@, digits_of(disk.available as nat)) + later.member_text(
        "dev"@,
        quoted(disk.name@),
    ) + later.member_text("mount"@, quoted(disk.mount@)) + later.close_text(false)
}

/// Whether `text` is the line written for `disk` in state `fmt`.
pub open spec fn renders_disk(text: SummaryText, fmt: Format, disk: DiskRecord) -> bool {
    &&& text.key@ == "storage:"@
    &&& text.value@ == free_text(binary_size(disk.available), disk.percent@)
    &&& text.detail@ == disk_detail(disk)
    &&& text.json@ == disk_json(fmt, disk)
}

/// The indices of the disks among the first `n` that are shown.
pub open spec fn shown_upto(disks: Seq<DiskRecord>, n: nat) -> Seq<int>
    decreases n,
{
    if n == 0 {
        Seq::empty()
    } else if shown(disks, n - 1) {
        shown_upto(disks, (n - 1) as nat).push(n - 1)
    } else {
        shown_upto(disks, (n - 1) as nat)
    }
}

/// The storage part of a report, ready to be written.
pub struct StorageText {
    /// The text that opens the list in JSON form.
    pub open: String,
    /// One line per disk shown.
    pub disks: Vec<SummaryText>,
    /// The text that closes the list in JSON form.
    pub close: String,
}

/// No disk that is shown holds more available bytes than bytes.
pub open spec fn sized(disks: Seq<DiskRecord>) -> bool {
    forall|i: int| #[trigger] shown(disks, i) ==> disks[i].available <= disks[i].total
}

/// Whether two byte strings are equal.
fn same_bytes(a: &Vec<u8>, b: &Vec<u8>) -> (same: bool)
    ensures
        same == (a@ == b@),
{
    if a.len() != b.len() {
        return false;
    }
    let mut i: usize = 0;
    while i < a.len()
        invariant
            i <= a.len(),
            a.len() == b.len(),
            forall|k: int| 0 <= k < i ==> a@[k] == b@[k],
        decreases a.len() - i,
    {
        if a[i] != b[i] {
            return false;
        }
        i += 1;
    }
    assert(a@ =~= b@);
    true
}

/// Decides whether the disk at `index` is shown.
fn is_shown(disks: &Vec<DiskRecord>, index: usize) -> (yes: bool)
    requires
        index < disks.len(),
    ensures
        yes == shown(disks@, index as int),
{
    if !disks[index].known {
        return false;
    }
    let mut k: usize = 0;
    while k < index
        invariant
            k <= index < disks.len(),
            forall|j: int|
                0 <= j < k && #[trigger] disks@[j].known ==> disks@[j].device@
                    != disks@[index as int].device@,
        decreases index - k,
    {
        if disks[k].known && same_bytes(&disks[k].device, &disks[index].device) {
            return false;
        }
        k += 1;
    }
    true
}

/// Decides whether the figures of the disks that are shown are consistent.
pub fn is_sized(disks: &Vec<DiskRecord>) -> (ok: bool)
    ensures
        ok == sized(disks@),
{
    let mut i: usize = 0;
    while i < disks.len()
        invariant
            i <= disks.len(),
            forall|k: int|
                0 <= k < i && #[trigger] shown(disks@, k) ==> disks@[k].available
                    <= disks@[k].total,
        decreases disks.len() - i,
    {
        if is_shown(disks, i) && disks[i].available > disks[i].total {
            return false;
        }
        i += 1;
    }
    true
}

/// Writes the line of one disk.
fn disk_line(fmt: &mut Format, disk: &DiskRecord) -> (out: SummaryText)
    requires
        old(fmt).room(1),
        disk.available <= disk.total,
    ensures
        renders_disk(out, *old(fmt), *disk),
        *final(fmt) == old(fmt).after_object(),
{
    let used: u64 = disk.total - disk.available;
    let mut value = size_text(disk.available);
    value.append(" (");
    value.append(disk.percent.as_str());
    value.append("%) free");
    let mut detail = size_text(used);
    detail.append(" used");
    detail.append(" \u{2219} ");
    detail.append(size_text(disk.total).as_str());
    detail.append(" total");
    detail.append(" \u{2219} ");
    detail.append("on ");
    detail.append(disk.mount.as_str());
    proof {
        reveal_strlit("");
        assert(""@ =~= Seq::<char>::empty());
    }
    let mut json = fmt.json_open("", false, false);
    json.append(fmt.json_key_val("total", decimal_text(disk.total).as_str()).as_str());
    json.append(fmt.json_key_val("used", decimal_text(used).as_str()).as_str());
    json.append(fmt.json_key_val("free", decimal_text(disk.available).as_str()).as_str());
    json.append(fmt.json_key_str("dev", disk.name.as_str()).as_str());
    json.append(fmt.json_key_str("mount", disk.mount.as_str()).as_str());
    json.append(fmt.json_close(false).as_str());
    let out = SummaryText { key: String::from_str("storage:"), value, detail, json };
    out
}

/// Writes the storage part: one line for every disk of known kind, the
/// first of each device only.
pub fn storagesummary(fmt: &mut Format, disks: &Vec<DiskRecord>) -> (out: StorageText)
    requires
        old(fmt).room(2),
        sized(disks@),
    ensures
        ({
            let inside = old(fmt).opened(true);
            let picks = shown_upto(disks@, disks@.len());
            &&& out.open@ == old(fmt).open_text("storage"@, true)
            &&& out.disks@.len() == picks.len()
            &&& forall|k: int|
                0 <= k < picks.len() ==> renders_disk(
                    #[trigger] out.disks@[k],
                    inside.after_objects(k as nat),
                    disks@[picks[k]],
                )
            &&& out.close@ == inside.after_objects(picks.len()).close_text(true)
            &&& *final(fmt) == inside.after_objects(picks.len()).closed()
        }),
{
    let ghost inside = old(fmt).opened(true);
    let open = fmt.json_open("storage", true, true);
    let mut lines: Vec<SummaryText> = Vec::new();
    let mut i: usize = 0;
    while i < disks.len()
        invariant
            i <= disks.len(),
            sized(disks@),
            inside.room(1),
            inside.can_close(),
            inside == old(fmt).opened(true),
            lines@.len() == shown_upto(disks@, i as nat).len(),
            *fmt == inside.after_objects(lines@.len()),
            forall|k: int|
                0 <= k < lines@.len() ==> 0 <= (#[trigger] shown_upto(disks@, i as nat)[k]) < i,
            forall|k: int|
                0 <= k < lines@.len() ==> renders_disk(
                    #[trigger] lines@[k],
                    inside.after_objects(k as nat),
                    disks@[shown_upto(disks@, i as nat)[k]],
                ),
        decreases disks.len() - i,
    {
        proof {
            inside.lemma_after_objects(lines@.len());
        }
        if is_shown(disks, i) {
            let line = disk_line(fmt, &disks[i]);
            lines.push(line);
        }
        i += 1;
    }
    proof {
        inside.lemma_after_objects(lines@.len());
    }
    let close = fmt.json_close(true);
    StorageText { open, disks: lines, close }
}

} // verus!
