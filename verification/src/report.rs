//! The service list of a report: which processes are shown, with what
//! figures, and in which order.

use vstd::prelude::*;
use crate::conf::{all_upto, outcomes, Config, Outcome};
use crate::fmt::{quoted, Format};
use crate::order::{ascending, holds, sort};
use crate::proc::ProcessMap;
use crate::text::{decimal_text, digits_of};
use crate::tree::{ProcessRecord, ProcessTree};

verus! {

/// One line of the service list.
pub struct ProcItem {
    /// The pid shown, zero for a service that is not running.
    pub pid: u32,
    /// The label of the service.
    pub name: String,
    /// CPU seconds of the service and its descendants.
    pub cpu: u64,
    /// Resident bytes of the service and its descendants.
    pub rss: u64,
    /// Seconds since the service started.
    pub uptime: u64,
    /// Whether the line needs attention.
    pub warn: bool,
    /// What is wrong, if anything.
    pub msg: String,
}

/// A line of the service list as a mathematical value.
pub struct ItemView {
    pub pid: u32,
    pub name: Seq<char>,
    pub cpu: u64,
    pub rss: u64,
    pub uptime: u64,
    pub warn: bool,
    pub msg: Seq<char>,
}

impl View for ProcItem {
    type V = ItemView;

    open spec fn view(&self) -> ItemView {
        ItemView {
            pid: self.pid,
            name: self.name@,
            cpu: self.cpu,
            rss: self.rss,
            uptime: self.uptime,
            warn: self.warn,
            msg: self.msg@,
        }
    }
}

/// The lines of a list as mathematical values.
pub open spec fn views(items: Seq<ProcItem>) -> Seq<ItemView> {
    items.map_values(|item: ProcItem| item@)
}

/// `n` written with at least two digits.
pub open spec fn two_digits(n: nat) -> Seq<char> {
    if n < 10 {
        "0"@ + digits_of(n)
    } else {
        digits_of(n)
    }
}

/// A duration in seconds for display: whole days once a day has passed,
/// hours, minutes and seconds before that.
pub open spec fn elapsed_text(secs: nat) -> Seq<char> {
    let mins = secs / 60;
    let hours = mins / 60;
    let days = hours / 24;
    if days > 0 {
        digits_of(days) + " days"@
    } else {
        two_digits(hours) + ":"@ + two_digits(mins % 60) + ":"@ + two_digits(secs % 60)
    }
}

/// Writes `n` with at least two digits.
fn padded(n: u64) -> (out: String)
    ensures
        out@ == two_digits(n as nat),
{
    let mut out = String::new();
    if n < 10 {
        out.append("0");
    }
    out.append(decimal_text(n).as_str());
    assert(out@ =~= two_digits(n as nat));
    out
}

/// Renders a duration for display.
pub fn elapsed(secs: u64) -> (out: String)
    ensures
        out@ == elapsed_text(secs as nat),
{
    let mins = secs / 60;
    let hours = mins / 60;
    let days = hours / 24;
    if days > 0 {
        let mut out = decimal_text(days);
        out.append(" days");
        out
    } else {
        let mut out = padded(hours);
        out.append(":");
        out.append(padded(mins % 60).as_str());
        out.append(":");
        out.append(padded(secs % 60).as_str());
        out
    }
}

/// The first record of the snapshot that carries `pid`.
pub open spec fn lookup(records: Seq<ProcessRecord>, pid: u32) -> Option<ProcessRecord>
    decreases records.len(),
{
    if records.len() == 0 {
        None
    } else if records[0].pid == pid {
        Some(records[0])
    } else {
        lookup(records.drop_first(), pid)
    }
}

/// Finds the first record that carries `pid`.
pub fn find(snapshot: &Vec<ProcessRecord>, pid: u32) -> (found: Option<&ProcessRecord>)
    ensures
        match found {
            Some(r) => lookup(snapshot@, pid) == Some(*r),
            None => lookup(snapshot@, pid) is None,
        },
{
    let mut i: usize = 0;
    assert(snapshot@.skip(0) == snapshot@);
    while i < snapshot.len()
        invariant
            i <= snapshot.len(),
            lookup(snapshot@, pid) == lookup(snapshot@.skip(i as int), pid),
        decreases snapshot.len() - i,
    {
        if snapshot[i].pid == pid {
            return Some(&snapshot[i]);
        }
        assert(snapshot@.skip(i as int).drop_first() == snapshot@.skip(i + 1));
        i += 1;
    }
    None
}

/// The state while the configured services are gone through.
pub struct Tally {
    /// The lines so far.
    pub items: Seq<ItemView>,
    /// The pids that have been dealt with.
    pub seen: Seq<u32>,
    /// The number of services found missing.
    pub errors: nat,
}

/// The tally after one more result line of the configuration. A line
/// with pid zero becomes an error line. A pid that was seen before adds
/// nothing. A new pid is marked as seen and, if the snapshot holds it, shown
/// with its aggregate figures, as a warning if it carries a diagnostic.
pub open spec fn tally_line(
    tally: Tally,
    line: Outcome,
    records: Seq<ProcessRecord>,
    t: ProcessTree,
    epoch: u64,
) -> Tally {
    if line.1 == 0 {
        Tally {
            items: tally.items.push(
                ItemView {
                    pid: 0,
                    name: line.0,
                    cpu: 0,
                    rss: 0,
                    uptime: 0,
                    warn: false,
                    msg: line.2,
                },
            ),
            seen: tally.seen,
            errors: tally.errors + 1,
        }
    } else if tally.seen.contains(line.1) {
        tally
    } else {
        Tally {
            items: match lookup(records, line.1) {
                Some(r) => tally.items.push(
                    ItemView {
                        pid: line.1,
                        name: line.0,
                        cpu: t.stat(line.1).0 as u64,
                        rss: t.stat(line.1).1 as u64,
                        uptime: (epoch - r.start_time) as u64,
                        warn: line.2.len() > 0,
                        msg: line.2,
                    },
                ),
                None => tally.items,
            },
            seen: tally.seen.push(line.1),
            errors: tally.errors,
        }
    }
}

/// The tally after all result lines of the configuration.
pub open spec fn tally_lines(
    lines: Seq<Outcome>,
    records: Seq<ProcessRecord>,
    t: ProcessTree,
    epoch: u64,
) -> Tally
    decreases lines.len(),
{
    if lines.len() == 0 {
        Tally { items: Seq::empty(), seen: Seq::empty(), errors: 0 }
    } else {
        tally_line(tally_lines(lines.drop_last(), records, t, epoch), lines.last(), records, t, epoch)
    }
}

/// Whether a service goes unlisted: one that was seen among the configured
/// ones, that the snapshot does not hold, or that has neither an executable
/// nor memory, as kernel threads do.
pub open spec fn unlisted(seen: Seq<u32>, records: Seq<ProcessRecord>, pid: u32) -> bool {
    seen.contains(pid) || match lookup(records, pid) {
        Some(r) => !r.has_exe && r.memory == 0,
        None => true,
    }
}

/// The lines after the services `pids` that are not configured have been
/// added, each as a warning under its process name.
pub open spec fn with_others(
    items: Seq<ItemView>,
    seen: Seq<u32>,
    pids: Seq<u32>,
    records: Seq<ProcessRecord>,
    t: ProcessTree,
    epoch: u64,
) -> Seq<ItemView>
    decreases pids.len(),
{
    if pids.len() == 0 {
        items
    } else {
        let before = with_others(items, seen, pids.drop_last(), records, t, epoch);
        let pid = pids.last();
        if unlisted(seen, records, pid) {
            before
        } else {
            before.push(
                ItemView {
                    pid,
                    name: lookup(records, pid)->0.name@,
                    cpu: t.stat(pid).0 as u64,
                    rss: t.stat(pid).1 as u64,
                    uptime: (epoch - lookup(records, pid)->0.start_time) as u64,
                    warn: true,
                    msg: Seq::empty(),
                },
            )
        }
    }
}

/// The service list before it is sorted: the configured services in
/// declaration order, each pid once, then, if `all`, the remaining services
/// in ascending pid order.
pub open spec fn listed(
    lines: Seq<Outcome>,
    records: Seq<ProcessRecord>,
    t: ProcessTree,
    all: bool,
    epoch: u64,
) -> Seq<ItemView> {
    let tally = tally_lines(lines, records, t, epoch);
    if all {
        with_others(tally.items, tally.seen, ascending(t.services()), records, t, epoch)
    } else {
        tally.items
    }
}

/// The number of configured services that are not running: the result
/// lines with pid zero.
pub open spec fn missing(lines: Seq<Outcome>) -> nat {
    lines.filter(|line: Outcome| line.1 == 0).len()
}

/// No process of the snapshot has started after `epoch`.
pub open spec fn started_by(records: Seq<ProcessRecord>, epoch: u64) -> bool {
    forall|i: int| 0 <= i < records.len() ==> (#[trigger] records[i]).start_time <= epoch
}

/// A record that `lookup` finds is a record of the snapshot.
pub proof fn lemma_lookup_finds_record(records: Seq<ProcessRecord>, pid: u32)
    ensures
        match lookup(records, pid) {
            Some(r) => records.contains(r) && r.pid == pid,
            None => true,
        },
    decreases records.len(),
{
    if records.len() > 0 {
        if records[0].pid == pid {
        } else {
            lemma_lookup_finds_record(records.drop_first(), pid);
            if lookup(records, pid) is Some {
                let r = lookup(records, pid)->0;
                let i = choose|i: int|
                    0 <= i < records.drop_first().len() && records.drop_first()[i] == r;
                assert(records[i + 1] == r);
            }
        }
    }
}

/// However often the configuration resolves to a running service, the
/// service is listed once: among the lines for the configured services no
/// pid other than zero occurs twice.
pub proof fn law_configured_listed_once(
    lines: Seq<Outcome>,
    records: Seq<ProcessRecord>,
    t: ProcessTree,
    epoch: u64,
)
    ensures
        ({
            let tally = tally_lines(lines, records, t, epoch);
            &&& forall|i: int|
                0 <= i < tally.items.len() && (#[trigger] tally.items[i]).pid != 0
                    ==> tally.seen.contains(tally.items[i].pid)
            &&& forall|i: int, j: int|
                0 <= i < j < tally.items.len() && (#[trigger] tally.items[i]).pid != 0
                    ==> tally.items[i].pid != (#[trigger] tally.items[j]).pid
        }),
    decreases lines.len(),
{
    if lines.len() > 0 {
        let before = tally_lines(lines.drop_last(), records, t, epoch);
        let after = tally_lines(lines, records, t, epoch);
        law_configured_listed_once(lines.drop_last(), records, t, epoch);
        assert forall|i: int|
            0 <= i < after.items.len() && (#[trigger] after.items[i]).pid != 0
            implies after.seen.contains(after.items[i].pid) by {
            if i < before.items.len() {
                assert(after.items[i] == before.items[i]);
                let k = choose|k: int|
                    0 <= k < before.seen.len() && before.seen[k] == before.items[i].pid;
                assert(after.seen[k] == before.seen[k]);
            } else {
                assert(after.seen.last() == after.items[i].pid);
            }
        }
        assert forall|i: int, j: int|
            0 <= i < j < after.items.len() && (#[trigger] after.items[i]).pid != 0
            implies after.items[i].pid != (#[trigger] after.items[j]).pid by {
            assert(after.items[i] == before.items[i]);
            if j < before.items.len() {
                assert(after.items[j] == before.items[j]);
            }
        }
    }
}

/// The tally counts exactly the missing services.
pub proof fn lemma_tally_counts_missing(
    lines: Seq<Outcome>,
    records: Seq<ProcessRecord>,
    t: ProcessTree,
    epoch: u64,
)
    ensures
        tally_lines(lines, records, t, epoch).errors == missing(lines),
    decreases lines.len(),
{
    reveal(Seq::filter);
    if lines.len() > 0 {
        lemma_tally_counts_missing(lines.drop_last(), records, t, epoch);
    }
}

/// Gathers the service list and counts the configured services that are
/// not running. `found` is the result of resolving the configuration
/// against `procs`, `epoch` the current time in seconds.
pub fn collect(
    snapshot: &Vec<ProcessRecord>,
    procs: &ProcessMap,
    found: &Vec<(&String, u32, String)>,
    all: bool,
    epoch: u64,
) -> (result: (Vec<ProcItem>, usize))
    requires
        started_by(snapshot@, epoch),
    ensures
        views(result.0@) == listed(outcomes(found@), snapshot@, procs@, all, epoch),
        result.1 == missing(outcomes(found@)),
{
    let ghost lines = outcomes(found@);
    let mut seen: Vec<u32> = Vec::new();
    let mut items: Vec<ProcItem> = Vec::new();
    let mut errors: usize = 0;
    let mut i: usize = 0;
    assert(lines.take(0) =~= Seq::<Outcome>::empty());
    assert(views(items@) =~= Seq::<ItemView>::empty());
    while i < found.len()
        invariant
            i <= found.len(),
            lines == outcomes(found@),
            started_by(snapshot@, epoch),
            errors <= i,
            tally_lines(lines.take(i as int), snapshot@, procs@, epoch) == (Tally {
                items: views(items@),
                seen: seen@,
                errors: errors as nat,
            }),
        decreases found.len() - i,
    {
        let pid = found[i].1;
        let ghost before = views(items@);
        proof {
            assert(lines.take(i + 1).drop_last() == lines.take(i as int));
            assert(lines.take(i + 1).last() == lines[i as int]);
            assert(lines[i as int] == (found@[i as int].0@, pid, found@[i as int].2@));
            lemma_lookup_finds_record(snapshot@, pid);
        }
        if pid == 0 {
            items.push(
                ProcItem {
                    pid: 0,
                    name: found[i].0.clone(),
                    cpu: 0,
                    rss: 0,
                    uptime: 0,
                    warn: false,
                    msg: found[i].2.clone(),
                },
            );
            errors += 1;
            assert(views(items@) =~= before.push(items@.last()@));
        } else if !holds(&seen, pid) {
            seen.push(pid);
            if let Some(r) = find(snapshot, pid) {
                let uptime = epoch - r.start_time;
                let (cputime, rssbytes) = procs.stat(&pid);
                let msg = found[i].2.clone();
                items.push(
                    ProcItem {
                        pid,
                        name: found[i].0.clone(),
                        cpu: cputime,
                        rss: rssbytes,
                        uptime,
                        warn: !msg.as_str().is_empty(),
                        msg,
                    },
                );
                assert(views(items@) =~= before.push(items@.last()@));
            }
        }
        i += 1;
    }
    proof {
        assert(lines.take(i as int) == lines);
        lemma_tally_counts_missing(lines, snapshot@, procs@, epoch);
    }
    if all {
        let services = sort(&procs.services());
        let ghost base = views(items@);
        let mut k: usize = 0;
        while k < services.len()
            invariant
                k <= services.len(),
                started_by(snapshot@, epoch),
                views(items@) == with_others(
                    base,
                    seen@,
                    services@.take(k as int),
                    snapshot@,
                    procs@,
                    epoch,
                ),
            decreases services.len() - k,
        {
            let pid = services[k];
            let ghost before = views(items@);
            proof {
                assert(services@.take(k + 1).drop_last() == services@.take(k as int));
                assert(services@.take(k + 1).last() == pid);
                lemma_lookup_finds_record(snapshot@, pid);
            }
            if !holds(&seen, pid) {
                if let Some(r) = find(snapshot, pid) {
                    if !(!r.has_exe && r.memory == 0) {
                        let uptime = epoch - r.start_time;
                        let (cputime, rssbytes) = procs.stat(&pid);
                        items.push(
                            ProcItem {
                                pid,
                                name: r.name.clone(),
                                cpu: cputime,
                                rss: rssbytes,
                                uptime,
                                warn: true,
                                msg: String::new(),
                            },
                        );
                        assert(views(items@) =~= before.push(items@.last()@));
                    }
                }
            }
            k += 1;
        }
        assert(services@.take(k as int) == services@);
    }
    (items, errors)
}

/// The figure by which the service list is sorted.
pub enum SortBy {
    /// CPU seconds.
    Cpu,
    /// Resident memory.
    Rss,
    /// Time since start.
    Uptime,
}

/// The figure of `item` that `by` selects.
pub open spec fn figure(by: SortBy, item: ItemView) -> u64 {
    match by {
        SortBy::Cpu => item.cpu,
        SortBy::Rss => item.rss,
        SortBy::Uptime => item.uptime,
    }
}

/// Whether the figures never rise along `items`.
pub open spec fn descending(items: Seq<ItemView>, by: SortBy) -> bool {
    forall|i: int, j: int|
        0 <= i < j < items.len() ==> figure(by, #[trigger] items[i]) >= figure(
            by,
            #[trigger] items[j],
        )
}

/// `item` put into `items` behind every line whose figure is at least as
/// large, seen from the end.
pub open spec fn placed(items: Seq<ItemView>, item: ItemView, by: SortBy) -> Seq<ItemView>
    decreases items.len(),
{
    if items.len() == 0 || figure(by, items.last()) >= figure(by, item) {
        items.push(item)
    } else {
        placed(items.drop_last(), item, by).push(items.last())
    }
}

/// `items` by falling figure; lines with equal figures keep their order.
pub open spec fn ranked(items: Seq<ItemView>, by: SortBy) -> Seq<ItemView>
    decreases items.len(),
{
    if items.len() == 0 {
        items
    } else {
        placed(ranked(items.drop_last(), by), items.last(), by)
    }
}

/// The service list as shown: sorted if a figure is chosen, and cut off
/// after `limit` lines if a limit is set.
pub open spec fn arranged(items: Seq<ItemView>, by: Option<SortBy>, limit: Option<usize>) -> Seq<
    ItemView,
> {
    let sorted = match by {
        Some(by) => ranked(items, by),
        None => items,
    };
    match limit {
        Some(n) => if n < sorted.len() {
            sorted.take(n as int)
        } else {
            sorted
        },
        None => sorted,
    }
}

/// Placing a line is inserting it where the smaller figures begin.
proof fn lemma_placed_at(items: Seq<ItemView>, item: ItemView, by: SortBy, at: int)
    requires
        0 <= at <= items.len(),
        forall|k: int| at <= k < items.len() ==> figure(by, items[k]) < figure(by, item),
        at > 0 ==> figure(by, items[at - 1]) >= figure(by, item),
    ensures
        placed(items, item, by) == items.insert(at, item),
    decreases items.len() - at,
{
    if at < items.len() {
        lemma_placed_at(items.drop_last(), item, by, at);
        assert(items.drop_last().insert(at, item).push(items.last()) =~= items.insert(at, item));
    } else {
        assert(items.push(item) =~= items.insert(at, item));
    }
}

/// Placing a line keeps a sorted list sorted and adds just that line.
pub proof fn lemma_placed_sorted(items: Seq<ItemView>, item: ItemView, by: SortBy)
    requires
        descending(items, by),
    ensures
        descending(placed(items, item, by), by),
        placed(items, item, by).to_multiset() == items.to_multiset().insert(item),
    decreases items.len(),
{
    broadcast use vstd::seq_lib::group_to_multiset_ensures;

    if items.len() == 0 || figure(by, items.last()) >= figure(by, item) {
        let out = items.push(item);
        assert forall|i: int, j: int| 0 <= i < j < out.len() implies figure(
            by,
            #[trigger] out[i],
        ) >= figure(by, #[trigger] out[j]) by {
            if j == items.len() {
                assert(figure(by, items[i]) >= figure(by, items[items.len() - 1]));
            } else {
                assert(figure(by, items[i]) >= figure(by, items[j]));
            }
        }
    } else {
        let front = items.drop_last();
        assert(descending(front, by)) by {
            assert forall|i: int, j: int| 0 <= i < j < front.len() implies figure(
                by,
                #[trigger] front[i],
            ) >= figure(by, #[trigger] front[j]) by {
                assert(figure(by, items[i]) >= figure(by, items[j]));
            }
        }
        lemma_placed_sorted(front, item, by);
        let mid = placed(front, item, by);
        let out = mid.push(items.last());
        assert(items =~= front.push(items.last()));
        assert forall|x: ItemView| mid.contains(x) implies figure(by, x) >= figure(
            by,
            items.last(),
        ) by {
            assert(mid.to_multiset().count(x) > 0);
            if x != item {
                assert(front.to_multiset().count(x) > 0);
                assert(front.contains(x));
                let k = choose|k: int| 0 <= k < front.len() && front[k] == x;
                assert(figure(by, items[k]) >= figure(by, items[items.len() - 1]));
            }
        }
        assert forall|i: int, j: int| 0 <= i < j < out.len() implies figure(
            by,
            #[trigger] out[i],
        ) >= figure(by, #[trigger] out[j]) by {
            if j == mid.len() {
                assert(mid.contains(mid[i]));
            } else {
                assert(figure(by, mid[i]) >= figure(by, mid[j]));
            }
        }
        assert(out.to_multiset() =~= items.to_multiset().insert(item));
    }
}

/// Sorting gives a list with falling figures that holds the same lines.
pub proof fn law_ranked_sorted(items: Seq<ItemView>, by: SortBy)
    ensures
        descending(ranked(items, by), by),
        ranked(items, by).to_multiset() == items.to_multiset(),
    decreases items.len(),
{
    broadcast use vstd::seq_lib::group_to_multiset_ensures;

    if items.len() > 0 {
        law_ranked_sorted(items.drop_last(), by);
        lemma_placed_sorted(ranked(items.drop_last(), by), items.last(), by);
        assert(items =~= items.drop_last().push(items.last()));
    }
}

/// The figure of `item` that `by` selects.
fn figure_of(by: &SortBy, item: &ProcItem) -> (n: u64)
    ensures
        n == figure(*by, item@),
{
    match by {
        SortBy::Cpu => item.cpu,
        SortBy::Rss => item.rss,
        SortBy::Uptime => item.uptime,
    }
}

/// Sorts the service list by falling figure, if one is chosen, and cuts it
/// off after `limit` lines, if a limit is set.
pub fn arrange(items: Vec<ProcItem>, by: Option<SortBy>, limit: Option<usize>) -> (out: Vec<
    ProcItem,
>)
    ensures
        views(out@) == arranged(views(items@), by, limit),
{
    let ghost given = views(items@);
    let mut out: Vec<ProcItem> = match by {
        None => items,
        Some(by) => {
            let mut rest = items;
            let mut sorted: Vec<ProcItem> = Vec::new();
            let ghost mut done: int = 0;
            assert(given.take(0) =~= Seq::<ItemView>::empty());
            assert(views(sorted@) =~= Seq::<ItemView>::empty());
            assert(given.skip(0) =~= given);
            while rest.len() > 0
                invariant
                    0 <= done <= given.len(),
                    views(rest@) == given.skip(done),
                    views(sorted@) == ranked(given.take(done), by),
                decreases rest.len(),
            {
                let ghost before_rest = views(rest@);
                let ghost first = rest@[0];
                assert(before_rest.len() == rest@.len());
                assert(before_rest[0] == first@);
                assert(given.skip(done).len() == given.len() - done);
                assert(given.skip(done)[0] == given[done]);
                let item = rest.remove(0);
                assert(item == first);
                let key = figure_of(&by, &item);
                let mut at: usize = sorted.len();
                while at > 0 && figure_of(&by, &sorted[at - 1]) < key
                    invariant
                        at <= sorted.len(),
                        key == figure(by, item@),
                        forall|k: int|
                            at <= k < sorted.len() ==> figure(by, views(sorted@)[k]) < figure(
                                by,
                                item@,
                            ),
                    decreases at,
                {
                    at -= 1;
                }
                let ghost before = views(sorted@);
                proof {
                    lemma_placed_at(before, item@, by, at as int);
                }
                sorted.insert(at, item);
                proof {
                    assert(views(sorted@) =~= before.insert(at as int, item@));
                    assert(views(rest@) =~= before_rest.drop_first());
                    assert(given.skip(done).drop_first() =~= given.skip(done + 1));
                    assert(given.take(done + 1).drop_last() =~= given.take(done));
                    assert(given.take(done + 1).last() == item@);
                    done = done + 1;
                }
            }
            assert(given.take(done) =~= given);
            sorted
        },
    };
    if let Some(n) = limit {
        if n < out.len() {
            let ghost before = views(out@);
            out.truncate(n);
            assert(views(out@) =~= before.take(n as int));
        }
    }
    out
}

/// What `humansize::format_size` writes for `bytes` with binary units and
/// one decimal place.
pub uninterp spec fn binary_size(bytes: u64) -> Seq<char>;

/// Calls `humansize::format_size` with the options `BINARY`, changed to one
/// decimal place.
///
/// Trusted: the text depends on the number of bytes alone. Nothing is
/// claimed about what the text is.
#[verifier::external_body]
pub(crate) fn size_text(bytes: u64) -> (text: String)
    ensures
        text@ == binary_size(bytes),
{
    humansize::format_size(
        bytes,
        humansize::FormatSizeOptions::from(humansize::BINARY).decimal_places(1),
    )
}

/// How a line of the service list is marked.
#[derive(Clone, Copy, Debug, PartialEq, Eq, Structural)]
pub enum Mark {
    /// A configured service that runs as expected.
    Healthy,
    /// A service that runs but needs attention.
    Warning,
    /// A configured service that is not running.
    Failure,
}

/// The text of one line of the service list, in both output forms.
pub struct ItemText {
    /// How the line is marked in text form.
    pub mark: Mark,
    /// The name of the service with its pid.
    pub label: String,
    /// The figures of a running service, or what is wrong with a missing
    /// one.
    pub detail: String,
    /// The warning to print below the line, if any.
    pub more: Option<String>,
    /// The line in JSON form; empty in text form.
    pub json: String,
}

/// The label of a line: the name, then the pid in square brackets.
pub open spec fn label_text(name: Seq<char>, pid: u32) -> Seq<char> {
    name + " ["@ + digits_of(pid as nat) + "]"@
}

/// The figures of a running service: CPU time, time since start and
/// memory, where `size` is the memory as it is to be shown.
pub open spec fn detail_text(cpu: u64, uptime: u64, size: Seq<char>) -> Seq<char> {
    "cpu "@ + elapsed_text(cpu as nat) + " \u{2219} "@ + "up "@ + elapsed_text(uptime as nat)
        + " \u{2219} "@ + size + " rss"@
}

/// How `item` is marked.
pub open spec fn mark_of(item: ItemView) -> Mark {
    if item.pid == 0 {
        Mark::Failure
    } else if item.warn {
        Mark::Warning
    } else {
        Mark::Healthy
    }
}

/// The JSON object that describes `item`, written in state `fmt`.
pub open spec fn item_json(fmt: Format, item: ItemView) -> Seq<char> {
    let first = fmt.opened(false);
    let later = first.after_member();
    fmt.open_text(Seq::empty(), false) + first.member_text("pid"@, digits_of(item.pid as nat))
        + later.member_text("name"@, quoted(item.name)) + (if item.pid == 0 {
        later.member_text("error"@, quoted(item.msg))
    } else {
        later.member_text("cputime"@, digits_of(item.cpu as nat)) + later.member_text(
            "uptime"@,
            digits_of(item.uptime as nat),
        ) + later.member_text("rss"@, digits_of(item.rss as nat))
    }) + (if item.warn {
        later.member_text(
            "warning"@,
            quoted(
                if item.msg.len() == 0 {
                    "not listed in config"@
                } else {
                    item.msg
                },
            ),
        )
    } else {
        Seq::empty()
    }) + later.close_text(false)
}

/// Whether `text` is what is written for `item` in state `fmt`.
pub open spec fn renders(text: ItemText, fmt: Format, item: ItemView) -> bool {
    &&& text.mark == mark_of(item)
    &&& text.label@ == label_text(item.name, item.pid)
    &&& text.detail@ == if item.pid == 0 {
        item.msg
    } else {
        detail_text(item.cpu, item.uptime, binary_size(item.rss))
    }
    &&& match text.more {
        Some(more) => item.pid != 0 && item.warn && item.msg.len() > 0 && more@ == item.msg,
        None => !(item.pid != 0 && item.warn && item.msg.len() > 0),
    }
    &&& text.json@ == item_json(fmt, item)
}

/// Puts the figures of a running service together.
pub fn detail(cpu: u64, uptime: u64, size: &str) -> (out: String)
    ensures
        out@ == detail_text(cpu, uptime, size@),
{
    let mut out = String::from_str("cpu ");
    out.append(elapsed(cpu).as_str());
    out.append(" \u{2219} ");
    out.append("up ");
    out.append(elapsed(uptime).as_str());
    out.append(" \u{2219} ");
    out.append(size);
    out.append(" rss");
    out
}

/// Writes one line of the service list.
pub fn printitem(fmt: &mut Format, item: &ProcItem) -> (out: ItemText)
    requires
        old(fmt).room(1),
    ensures
        renders(out, *old(fmt), item@),
        *final(fmt) == old(fmt).after_object(),
{
    let mut label = item.name.clone();
    label.append(" [");
    label.append(decimal_text(item.pid as u64).as_str());
    label.append("]");
    let mut more: Option<String> = None;
    let mark: Mark;
    let text: String;
    if item.pid == 0 {
        mark = Mark::Failure;
        text = item.msg.clone();
    } else {
        text = detail(item.cpu, item.uptime, size_text(item.rss).as_str());
        if item.warn {
            mark = Mark::Warning;
            if !item.msg.as_str().is_empty() {
                more = Some(item.msg.clone());
            }
        } else {
            mark = Mark::Healthy;
        }
    }
    let json = item_object(fmt, item);
    ItemText { mark, label, detail: text, more, json }
}

/// Writes the JSON object that describes `item`.
fn item_object(fmt: &mut Format, item: &ProcItem) -> (json: String)
    requires
        old(fmt).room(1),
    ensures
        json@ == item_json(*old(fmt), item@),
        *final(fmt) == old(fmt).after_object(),
{
    let mut json = fmt.json_open("", false, false);
    proof {
        reveal_strlit("");
        assert(""@ =~= Seq::<char>::empty());
    }
    json.append(fmt.json_key_val("pid", decimal_text(item.pid as u64).as_str()).as_str());
    json.append(fmt.json_key_str("name", item.name.as_str()).as_str());
    let figures = if item.pid == 0 {
        fmt.json_key_str("error", item.msg.as_str())
    } else {
        let mut figures = fmt.json_key_val("cputime", decimal_text(item.cpu).as_str());
        figures.append(fmt.json_key_val("uptime", decimal_text(item.uptime).as_str()).as_str());
        figures.append(fmt.json_key_val("rss", decimal_text(item.rss).as_str()).as_str());
        figures
    };
    json.append(figures.as_str());
    let warning = if item.warn {
        if item.msg.as_str().is_empty() {
            fmt.json_key_str("warning", "not listed in config")
        } else {
            fmt.json_key_str("warning", item.msg.as_str())
        }
    } else {
        String::new()
    };
    json.append(warning.as_str());
    json.append(fmt.json_close(false).as_str());
    json
}

/// The service list of a report, ready to be written.
pub struct Summary {
    /// The text that opens the list in JSON form.
    pub open: String,
    /// The lines of the list.
    pub items: Vec<ItemText>,
    /// The text that closes the list in JSON form.
    pub close: String,
    /// The number of configured services that are not running.
    pub errors: usize,
}

/// Resolves the configuration against the hierarchy and writes the service
/// list: the configured services first, then, if `all`, the others; sorted
/// and limited as asked. The number of missing services is the exit status
/// of the report.
pub fn procsummary(
    snapshot: &Vec<ProcessRecord>,
    procs: &ProcessMap,
    fmt: &mut Format,
    conf: &Config,
    pidfile_contents: &Vec<Option<String>>,
    all: bool,
    sort: Option<SortBy>,
    limit: Option<usize>,
    epoch: u64,
) -> (out: Summary)
    requires
        started_by(snapshot@, epoch),
        old(fmt).room(2),
    ensures
        ({
            let lines = all_upto(conf@, procs@, pidfile_contents@, conf@.len());
            let items = arranged(listed(lines, snapshot@, procs@, all, epoch), sort, limit);
            let inside = old(fmt).opened(true);
            &&& out.errors == missing(lines)
            &&& out.open@ == old(fmt).open_text("services"@, true)
            &&& out.items@.len() == items.len()
            &&& forall|i: int|
                0 <= i < items.len() ==> renders(
                    #[trigger] out.items@[i],
                    inside.after_objects(i as nat),
                    items[i],
                )
            &&& out.close@ == inside.after_objects(items.len()).close_text(true)
            &&& *final(fmt) == inside.after_objects(items.len()).closed()
        }),
{
    let found = conf.all(procs, pidfile_contents);
    let (items, errors) = collect(snapshot, procs, &found, all, epoch);
    let items = arrange(items, sort, limit);
    let ghost inside = old(fmt).opened(true);
    let open = fmt.json_open("services", true, true);
    let mut texts: Vec<ItemText> = Vec::new();
    let mut i: usize = 0;
    while i < items.len()
        invariant
            i <= items.len(),
            texts@.len() == i,
            inside.room(1),
            inside.can_close(),
            *fmt == inside.after_objects(i as nat),
            forall|k: int|
                0 <= k < i ==> renders(
                    #[trigger] texts@[k],
                    inside.after_objects(k as nat),
                    views(items@)[k],
                ),
        decreases items.len() - i,
    {
        proof {
            inside.lemma_after_objects(i as nat);
        }
        let text = printitem(fmt, &items[i]);
        texts.push(text);
        i += 1;
    }
    proof {
        inside.lemma_after_objects(i as nat);
    }
    let close = fmt.json_close(true);
    Summary { open, items: texts, close, errors }
}

} // verus!
