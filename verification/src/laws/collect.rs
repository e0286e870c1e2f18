//! What the readings promise about processes, paths and drives.
use vstd::prelude::*;

use crate::binary64::Double;
use crate::collect::darwin::{replied_paths, FdReply};
use crate::collect::linux::kept;
use crate::collect::owners::{noted, path_key, with_pid, PathKey, MAX_OWNED_PATHS};
use crate::collect::processes::{due, elapsed_since, full_label, idle_in, in_seconds, indexable, inverted, label_text, lemma_idle_total, lemma_sampled, lemma_sampled_once, lemma_seconds, noted_all, pid_label, published, published_idle, rates_over, readable, since, tables_of, ListedProcess, Listing, ProcessCollector, ProcessFiles, ProcessTick, UsageSample, RATE_INTERVAL, SCAN_INTERVAL};
use crate::collect::ranking::{busier, comparable, is_ranking, lemma_ranking_is, ranking};
use crate::collect::windows::{describes, drive_name, separator, DiskReading, WindowsDevice};
use crate::paths::{names, same_path, tail, FilePath, SLASH};
use crate::tabs::hot::owner_of;
use crate::text::decimal;

verus! {

/// The pid survives clipping: a label that is wide enough for it shows all of
/// its digits, and wherever a character of the name is left, the label ends
/// with the pid in its brackets.
pub proof fn law_pid_survives_clipping(name: Seq<char>, pid: u32, width: nat)
    requires
        width >= decimal(pid as nat).len(),
    ensures
        exists|at: int|
            0 <= at && at + decimal(pid as nat).len() <= label_text(name, pid, width).len()
                && #[trigger] label_text(name, pid, width).subrange(
                at,
                at + decimal(pid as nat).len(),
            ) == decimal(pid as nat),
        width >= pid_label(pid).len() + 2 ==> pid_label(pid).is_suffix_of(
            label_text(name, pid, width),
        ),
{
    let label = label_text(name, pid, width);
    let tail = pid_label(pid);
    let digits = decimal(pid as nat);
    reveal_strlit(" (");
    reveal_strlit(")");
    reveal_strlit("\u{2026}");
    let at = if full_label(name, pid).len() <= width || width >= tail.len() + 2 {
        label.len() - 1 - digits.len()
    } else {
        0
    };
    assert(label.subrange(at, at + digits.len()) =~= digits);
    if width >= tail.len() + 2 {
        assert(label.subrange(label.len() - tail.len(), label.len() as int) =~= tail);
    }
}

/// A holder that is the only one is the answer, however little it moves.
pub proof fn law_only_holder_is_the_owner(collector: ProcessCollector, path: Seq<u8>, pid: u32)
    requires
        collector.wf(),
        collector.holders(path).dom() == set![pid],
    ensures
        owner_of(collector, path) == Some(collector.known()[pid]),
        ranking(collector.holders(path)) == seq![collector.known()[pid]],
{
    let holders = collector.holders(path);
    assert(holders.contains_key(pid));
    assert(collector.known().contains_key(pid));
    let order = seq![collector.known()[pid]];
    assert(order[0].pid == pid);
    assert forall|p: u32| #[trigger] holders.contains_key(p) implies exists|i: int|
        0 <= i < order.len() && (#[trigger] order[i]).pid == p by {
        assert(holders.dom().contains(p));
        assert(order[0].pid == p);
    }
    lemma_ranking_is(order, holders);
}

/// A pid that the index names but that the latest reading did not find,
/// because the process has exited, is no holder.
pub proof fn law_exited_holder_is_dropped(collector: ProcessCollector, path: Seq<u8>, pid: u32)
    requires
        !collector.known().contains_key(pid),
    ensures
        !collector.holders(path).contains_key(pid),
{
}

/// The first reading has nothing to be differenced against, and publishes no
/// rates.
pub proof fn law_first_reading_publishes_no_rates(samples: Seq<UsageSample>, now: u64)
    ensures
        published(samples, elapsed_since(None, now)) == Map::<u32, ProcessTick>::empty(),
        published_idle(samples, elapsed_since(None, now)) == Map::<u32, ProcessTick>::empty(),
{
}

/// Every later reading that is due publishes all of its processes: those that
/// moved bytes with their rates, the others with rates of zero.
pub proof fn law_later_readings_publish_every_process(
    samples: Seq<UsageSample>,
    last: u64,
    now: u64,
    i: int,
)
    requires
        due(Some(last), RATE_INTERVAL, now),
        0 <= i < samples.len(),
    ensures
        elapsed_since(Some(last), now).positive(),
        published(samples, elapsed_since(Some(last), now)).contains_key(samples[i].pid)
            || published_idle(samples, elapsed_since(Some(last), now)).contains_key(samples[i].pid),
{
    lemma_seconds(since(last, now));
    lemma_sampled(samples, elapsed_since(Some(last), now), i);
}

/// The busiest processes are ranked among those that moved bytes: each was
/// sampled with some.
pub proof fn law_only_what_moved_has_a_rate(samples: Seq<UsageSample>, elapsed: Double, pid: u32)
    requires
        published(samples, elapsed).contains_key(pid),
    ensures
        exists|i: int|
            0 <= i < samples.len() && (#[trigger] samples[i]).pid == pid && samples[i].moved(),
{
    lemma_rated(samples, elapsed, pid);
}

proof fn lemma_rated(samples: Seq<UsageSample>, elapsed: Double, pid: u32)
    requires
        rates_over(samples, elapsed).contains_key(pid),
    ensures
        exists|i: int|
            0 <= i < samples.len() && (#[trigger] samples[i]).pid == pid && samples[i].moved(),
    decreases samples.len(),
{
    if samples.len() > 0 {
        let init = samples.drop_last();
        let end = samples.len() - 1;
        if samples[end].pid != pid || !samples[end].moved() {
            lemma_rated(init, elapsed, pid);
            let i = choose|i: int|
                0 <= i < init.len() && (#[trigger] init[i]).pid == pid && init[i].moved();
            assert(samples[i] == init[i]);
        }
    }
}

/// An idle process is published with a total rate of zero.
pub proof fn law_idle_processes_have_no_rate(samples: Seq<UsageSample>, pid: u32)
    requires
        idle_in(samples).contains_key(pid),
    ensures
        idle_in(samples)[pid].pid == pid,
        idle_in(samples)[pid].total() == (Double { bits: 0 }),
    decreases samples.len(),
{
    if samples.len() > 0 {
        lemma_idle_total(samples.last());
        if idle_in(samples.drop_last()).contains_key(pid) {
            law_idle_processes_have_no_rate(samples.drop_last(), pid);
        }
    }
}

/// Within an interval of a reading nothing is due, so refreshing every frame
/// reads no more often than the intervals say.
pub proof fn law_readings_are_rate_limited(last: u64, now: u64)
    requires
        last <= now,
    ensures
        now - last < RATE_INTERVAL ==> !due(Some(last), RATE_INTERVAL, now),
        now - last < SCAN_INTERVAL ==> !due(Some(last), SCAN_INTERVAL, now),
        due(Some(last), SCAN_INTERVAL, now) ==> due(Some(last), RATE_INTERVAL, now),
{
}

/// What noting one path leaves as it was.
proof fn lemma_noted(index: Map<PathKey, Seq<u32>>, path: Seq<u8>, pid: u32)
    requires
        index.dom().finite(),
        index.dom().len() <= MAX_OWNED_PATHS,
    ensures
        noted(index, path, pid).dom().finite(),
        noted(index, path, pid).dom().len() <= MAX_OWNED_PATHS,
        index.dom().len() <= noted(index, path, pid).dom().len(),
        forall|k: PathKey| #[trigger]
            index.contains_key(k) ==> noted(index, path, pid).contains_key(k),
        forall|k: PathKey, p: u32|
            index.contains_key(k) && #[trigger] index[k].contains(p) ==> noted(
                index,
                path,
                pid,
            )[k].contains(p),
        index.dom().len() == MAX_OWNED_PATHS ==> noted(index, path, pid).dom() == index.dom(),
        noted(index, path, pid).contains_key(path_key(path)) ==> noted(index, path, pid)[path_key(
            path,
        )].contains(pid),
        !noted(index, path, pid).contains_key(path_key(path)) ==> index.dom().len()
            == MAX_OWNED_PATHS,
{
    let key = path_key(path);
    let after = noted(index, path, pid);
    if index.contains_key(key) {
        assert(after.dom() =~= index.dom());
        let more = with_pid(index[key], pid);
        assert(more.contains(pid)) by {
            if !index[key].contains(pid) {
                assert(more[more.len() - 1] == pid);
            }
        }
        assert forall|k: PathKey, p: u32|
            index.contains_key(k) && #[trigger] index[k].contains(p) implies after[k].contains(
            p,
        ) by {
            if k == key {
                let i = choose|i: int| 0 <= i < index[k].len() && index[k][i] == p;
                assert(more[i] == p);
            }
        }
    } else if index.dom().len() < MAX_OWNED_PATHS {
        assert(after[key] == seq![pid]);
        assert(seq![pid][0] == pid);
    }
}

proof fn lemma_noted_all(index: Map<PathKey, Seq<u32>>, paths: Seq<FilePath>, pid: u32)
    requires
        index.dom().finite(),
        index.dom().len() <= MAX_OWNED_PATHS,
    ensures
        noted_all(index, paths, pid).dom().finite(),
        noted_all(index, paths, pid).dom().len() <= MAX_OWNED_PATHS,
        index.dom().len() <= noted_all(index, paths, pid).dom().len(),
        forall|k: PathKey| #[trigger]
            index.contains_key(k) ==> noted_all(index, paths, pid).contains_key(k),
        forall|k: PathKey, p: u32|
            index.contains_key(k) && #[trigger] index[k].contains(p) ==> noted_all(
                index,
                paths,
                pid,
            )[k].contains(p),
        index.dom().len() == MAX_OWNED_PATHS ==> noted_all(index, paths, pid).dom() == index.dom(),
    decreases paths.len(),
{
    if paths.len() > 0 {
        let before = noted_all(index, paths.drop_last(), pid);
        lemma_noted_all(index, paths.drop_last(), pid);
        lemma_noted(before, paths.last()@, pid);
    }
}

/// The index never holds more paths than it may.
pub proof fn law_index_is_capped(tables: Seq<ProcessFiles>)
    ensures
        inverted(tables).dom().finite(),
        inverted(tables).dom().len() <= MAX_OWNED_PATHS,
        MAX_OWNED_PATHS == 8192,
    decreases tables.len(),
{
    if tables.len() > 0 {
        law_index_is_capped(tables.drop_last());
        match tables.last().files {
            Some(paths) => {
                lemma_noted_all(inverted(tables.drop_last()), paths@, tables.last().pid);
            },
            None => {},
        }
    }
}

proof fn lemma_noted_all_distinct(
    index: Map<PathKey, Seq<u32>>,
    paths: Seq<FilePath>,
    pid: u32,
    key: PathKey,
)
    requires
        forall|k: PathKey| #[trigger] index.contains_key(k) ==> index[k].no_duplicates(),
        noted_all(index, paths, pid).contains_key(key),
    ensures
        noted_all(index, paths, pid)[key].no_duplicates(),
    decreases paths.len(),
{
    if paths.len() > 0 {
        let before = noted_all(index, paths.drop_last(), pid);
        if before.contains_key(key) {
            lemma_noted_all_distinct(index, paths.drop_last(), pid, key);
        }
    }
}

/// A process that holds a file on several descriptors is one owner of it.
pub proof fn law_no_owner_is_listed_twice(tables: Seq<ProcessFiles>, key: PathKey)
    requires
        inverted(tables).contains_key(key),
    ensures
        inverted(tables)[key].no_duplicates(),
    decreases tables.len(),
{
    if tables.len() > 0 {
        let before = inverted(tables.drop_last());
        assert forall|k: PathKey| #[trigger] before.contains_key(k) implies before[
            k
        ].no_duplicates() by {
            law_no_owner_is_listed_twice(tables.drop_last(), k);
        }
        match tables.last().files {
            Some(paths) => {
                lemma_noted_all_distinct(before, paths@, tables.last().pid, key);
            },
            None => {},
        }
    }
}

/// Process `pid` was seen with a path of `key` open.
pub open spec fn seen_holding(tables: Seq<ProcessFiles>, key: PathKey, pid: u32) -> bool {
    exists|t: int, j: int|
        #![trigger tables[t].files->0@[j]]
        0 <= t < tables.len() && tables[t].pid == pid && tables[t].files is Some && 0 <= j
            < tables[t].files->0@.len() && path_key(tables[t].files->0@[j]@) == key
}

proof fn lemma_noted_all_sound(
    index: Map<PathKey, Seq<u32>>,
    paths: Seq<FilePath>,
    pid: u32,
    key: PathKey,
    owner: u32,
)
    requires
        noted_all(index, paths, pid).contains_key(key),
        noted_all(index, paths, pid)[key].contains(owner),
    ensures
        index.contains_key(key) && index[key].contains(owner) || owner == pid && exists|j: int|
            0 <= j < paths.len() && path_key((#[trigger] paths[j])@) == key,
    decreases paths.len(),
{
    if paths.len() > 0 {
        let init = paths.drop_last();
        let before = noted_all(index, init, pid);
        let last = path_key(paths.last()@);
        if before.contains_key(key) && before[key].contains(owner) {
            lemma_noted_all_sound(index, init, pid, key, owner);
            if exists|j: int| 0 <= j < init.len() && path_key((#[trigger] init[j])@) == key {
                let j = choose|j: int| 0 <= j < init.len() && path_key((#[trigger] init[j])@) == key;
                assert(paths[j] == init[j]);
            }
        } else {
            assert(key == last);
            assert(path_key(paths[paths.len() - 1]@) == key);
            assert(owner == pid) by {
                let list = noted_all(index, paths, pid)[key];
                let i = choose|i: int| 0 <= i < list.len() && list[i] == owner;
                if before.contains_key(key) {
                    if i < before[key].len() {
                        assert(before[key][i] == owner);
                    }
                }
            }
        }
    }
}

/// Every owner that the index names was seen with the path open.
pub proof fn law_owners_hold_the_path(tables: Seq<ProcessFiles>, key: PathKey, pid: u32)
    requires
        inverted(tables).contains_key(key),
        inverted(tables)[key].contains(pid),
    ensures
        seen_holding(tables, key, pid),
    decreases tables.len(),
{
    if tables.len() > 0 {
        let init = tables.drop_last();
        let before = inverted(init);
        let end = tables.len() - 1;
        match tables.last().files {
            Some(paths) => {
                lemma_noted_all_sound(before, paths@, tables.last().pid, key, pid);
                if before.contains_key(key) && before[key].contains(pid) {
                    law_owners_hold_the_path(init, key, pid);
                    lemma_seen_later(tables, key, pid);
                } else {
                    let j = choose|j: int|
                        0 <= j < paths@.len() && path_key((#[trigger] paths@[j])@) == key;
                    assert(path_key(tables[end].files->0@[j]@) == key);
                }
            },
            None => {
                law_owners_hold_the_path(init, key, pid);
                lemma_seen_later(tables, key, pid);
            },
        }
    }
}

proof fn lemma_seen_later(tables: Seq<ProcessFiles>, key: PathKey, pid: u32)
    requires
        tables.len() > 0,
        seen_holding(tables.drop_last(), key, pid),
    ensures
        seen_holding(tables, key, pid),
{
    let init = tables.drop_last();
    let (t, j) = choose|t: int, j: int|
        #![trigger init[t].files->0@[j]]
        0 <= t < init.len() && init[t].pid == pid && init[t].files is Some && 0 <= j
            < init[t].files->0@.len() && path_key(init[t].files->0@[j]@) == key;
    assert(tables[t] == init[t]);
    assert(path_key(tables[t].files->0@[j]@) == key);
}

proof fn lemma_noted_all_complete(
    index: Map<PathKey, Seq<u32>>,
    paths: Seq<FilePath>,
    pid: u32,
    j: int,
)
    requires
        index.dom().finite(),
        index.dom().len() <= MAX_OWNED_PATHS,
        0 <= j < paths.len(),
    ensures
        ({
            let after = noted_all(index, paths, pid);
            let key = path_key(paths[j]@);
            if after.contains_key(key) {
                after[key].contains(pid)
            } else {
                after.dom().len() == MAX_OWNED_PATHS
            }
        }),
    decreases paths.len(),
{
    let init = paths.drop_last();
    let before = noted_all(index, init, pid);
    lemma_noted_all(index, init, pid);
    lemma_noted(before, paths.last()@, pid);
    if j < init.len() {
        lemma_noted_all_complete(index, init, pid, j);
        assert(init[j] == paths[j]);
        let key = path_key(paths[j]@);
        if !before.contains_key(key) {
            assert(noted_all(index, paths, pid).dom() == before.dom());
        }
    }
}

/// Whoever was seen with an indexed path open is among its owners, and a path
/// is left out only when the index is full.
pub proof fn law_holders_are_listed(tables: Seq<ProcessFiles>, t: int, j: int)
    requires
        0 <= t < tables.len(),
        tables[t].files is Some,
        0 <= j < tables[t].files->0@.len(),
    ensures
        ({
            let key = path_key(tables[t].files->0@[j]@);
            if inverted(tables).contains_key(key) {
                inverted(tables)[key].contains(tables[t].pid)
            } else {
                inverted(tables).dom().len() == MAX_OWNED_PATHS
            }
        }),
    decreases tables.len(),
{
    let init = tables.drop_last();
    let before = inverted(init);
    law_index_is_capped(init);
    if t < init.len() {
        assert(init[t] == tables[t]);
        law_holders_are_listed(init, t, j);
        match tables.last().files {
            Some(paths) => {
                lemma_noted_all(before, paths@, tables.last().pid);
            },
            None => {},
        }
    } else {
        lemma_noted_all_complete(before, tables[t].files->0@, tables[t].pid, j);
    }
}

/// Crossing the two readings: a process is attributed a path only if it was
/// seen with it open and is in the latest reading, and every such process is
/// attributed it unless the index was full before the path came.
pub proof fn law_holders_are_attributed(
    collector: ProcessCollector,
    tables: Seq<ProcessFiles>,
    path: Seq<u8>,
    pid: u32,
)
    requires
        collector.owners@ == inverted(tables),
    ensures
        collector.holders(path).contains_key(pid) ==> collector.known().contains_key(pid)
            && seen_holding(tables, path_key(path), pid),
        collector.known().contains_key(pid) && seen_holding(tables, path_key(path), pid) && (
        collector.owners@.contains_key(path_key(path)) || collector.owners@.dom().len()
            < MAX_OWNED_PATHS) ==> collector.holders(path).contains_key(pid),
{
    let key = path_key(path);
    if collector.holders(path).contains_key(pid) {
        law_owners_hold_the_path(tables, key, pid);
    }
    if seen_holding(tables, key, pid) {
        let (t, j) = choose|t: int, j: int|
            #![trigger tables[t].files->0@[j]]
            0 <= t < tables.len() && tables[t].pid == pid && tables[t].files is Some && 0 <= j
                < tables[t].files->0@.len() && path_key(tables[t].files->0@[j]@) == key;
        law_holders_are_listed(tables, t, j);
    }
}

/// A sampled process that is the only one seen with a path open is named as
/// its owner, even if it moved nothing: then it is named with a rate of zero.
pub proof fn law_only_sampled_holder_is_named(
    collector: ProcessCollector,
    samples: Seq<UsageSample>,
    elapsed: Double,
    tables: Seq<ProcessFiles>,
    path: Seq<u8>,
    i: int,
)
    requires
        collector.wf(),
        elapsed.positive(),
        collector.procs@ == published(samples, elapsed),
        collector.idle@ == published_idle(samples, elapsed),
        collector.owners@ == inverted(tables),
        0 <= i < samples.len(),
        seen_holding(tables, path_key(path), samples[i].pid),
        forall|pid: u32| #[trigger]
            seen_holding(tables, path_key(path), pid) ==> pid == samples[i].pid,
        collector.owners@.contains_key(path_key(path)) || collector.owners@.dom().len()
            < MAX_OWNED_PATHS,
    ensures
        owner_of(collector, path) is Some,
        owner_of(collector, path)->0.pid == samples[i].pid,
        (forall|k: int|
            0 <= k < samples.len() && (#[trigger] samples[k]).pid == samples[i].pid
                ==> !samples[k].moved()) ==> owner_of(collector, path)->0.total() == (Double {
            bits: 0,
        }),
{
    let pid = samples[i].pid;
    let holders = collector.holders(path);
    lemma_sampled(samples, elapsed, i);
    law_holders_are_attributed(collector, tables, path, pid);
    assert forall|p: u32| #[trigger] holders.contains_key(p) implies p == pid by {
        law_holders_are_attributed(collector, tables, path, p);
    }
    assert(holders.dom() =~= set![pid]);
    law_only_holder_is_the_owner(collector, path, pid);
    if collector.procs@.contains_key(pid) {
        law_only_what_moved_has_a_rate(samples, elapsed, pid);
    } else {
        law_idle_processes_have_no_rate(samples, pid);
    }
}

/// Any two processes are ranked, one way only: ties in the rate go by pid.
pub proof fn law_ranking_settles_every_pair(a: ProcessTick, b: ProcessTick)
    requires
        a.pid != b.pid,
    ensures
        busier(a, b) <==> !busier(b, a),
{
}

/// A denied table counts as hidden and a readable one as visible, never both.
pub proof fn law_coverage_counts_every_table(tables: Seq<ProcessFiles>)
    ensures
        readable(tables) <= tables.len(),
        readable(tables) == tables.len() <==> forall|t: int|
            0 <= t < tables.len() ==> (#[trigger] tables[t]).files is Some,
    decreases tables.len(),
{
    if tables.len() > 0 {
        let init = tables.drop_last();
        law_coverage_counts_every_table(init);
        assert(tables[tables.len() - 1] == tables.last());
        if readable(tables) == tables.len() {
            assert forall|t: int| 0 <= t < tables.len() implies (
            #[trigger] tables[t]).files is Some by {
                if t < init.len() {
                    assert(init[t] == tables[t]);
                }
            }
        } else if forall|t: int|
            0 <= t < tables.len() ==> (#[trigger] tables[t]).files is Some {
            assert forall|t: int| 0 <= t < init.len() implies (#[trigger] init[t]).files is Some by {
                assert(init[t] == tables[t]);
            }
        }
    }
}

/// How many processes were listed as `open`, or denied us.
pub open spec fn listed_as(listed: Seq<ListedProcess>, open: bool) -> nat
    decreases listed.len(),
{
    if listed.len() == 0 {
        0
    } else {
        listed_as(listed.drop_last(), open) + match listed.last().listing {
            Listing::Open(_) => if open {
                1nat
            } else {
                0nat
            },
            Listing::Gone => 0nat,
            Listing::Denied => if open {
                0nat
            } else {
                1nat
            },
        }
    }
}

/// Only processes that exist are counted: those whose table was read are
/// visible, those that denied us are hidden, and one that has gone is
/// neither.
pub proof fn law_gone_processes_are_not_counted(listed: Seq<ListedProcess>)
    ensures
        readable(tables_of(listed)) == listed_as(listed, true),
        tables_of(listed).len() - readable(tables_of(listed)) == listed_as(listed, false),
    decreases listed.len(),
{
    if listed.len() > 0 {
        let init = listed.drop_last();
        law_gone_processes_are_not_counted(init);
        match listed.last().listing {
            Listing::Gone => {},
            _ => {
                assert(tables_of(listed).drop_last() =~= tables_of(init));
            },
        }
    }
}

/// Only paths worth indexing come out of a descriptor table on Linux.
pub proof fn law_linux_paths_are_indexable(targets: Seq<FilePath>, i: int)
    requires
        0 <= i < kept(targets).len(),
    ensures
        indexable(kept(targets)[i]),
    decreases targets.len(),
{
    if targets.len() > 0 {
        let before = kept(targets.drop_last());
        if i < before.len() {
            law_linux_paths_are_indexable(targets.drop_last(), i);
        }
    }
}

/// Only paths worth indexing come out of a descriptor table on macOS.
pub proof fn law_darwin_paths_are_indexable(replies: Seq<FdReply>, full: i32, i: int)
    requires
        0 <= i < replied_paths(replies, full).len(),
    ensures
        indexable(replied_paths(replies, full)[i]),
    decreases replies.len(),
{
    if replies.len() > 0 {
        let before = replied_paths(replies.drop_last(), full);
        if i < before.len() {
            law_darwin_paths_are_indexable(replies.drop_last(), full, i);
        }
    }
}

/// A trailing slash makes no difference to a path.
pub proof fn law_trailing_slash_is_ignored(path: Seq<u8>)
    requires
        path.len() > 0,
    ensures
        same_path(path.push(SLASH), path),
{
    let longer = path.push(SLASH);
    assert(longer.drop_last() =~= path);
    assert(tail(longer) =~= seq![]);
}

/// A drive's name ends with no separator, and no drive is fuller than it is
/// large.
pub proof fn law_drives_are_described(device: WindowsDevice, disk: DiskReading)
    requires
        describes(device, disk),
    ensures
        device.name@.len() > 0 ==> !separator(device.name@.last()),
        device.used_bytes <= device.size_bytes,
{
    lemma_drive_name(disk.mount@);
}

proof fn lemma_drive_name(mount: Seq<char>)
    ensures
        drive_name(mount).len() > 0 ==> !separator(drive_name(mount).last()),
    decreases mount.len(),
{
    if mount.len() > 0 && separator(mount.last()) {
        lemma_drive_name(mount.drop_last());
    }
}

/// A ranking goes by the bytes moved, reads and writes together: whoever moved
/// more stands first, and a tie goes to the lower pid.
pub proof fn law_ranking_goes_by_bytes(
    order: Seq<ProcessTick>,
    procs: Map<u32, ProcessTick>,
    i: int,
    j: int,
)
    requires
        is_ranking(order, procs),
        0 <= i < order.len(),
        0 <= j < order.len(),
    ensures
        ({
            let first = order[i].read_bps.sum(order[i].write_bps).rank();
            let second = order[j].read_bps.sum(order[j].write_bps).rank();
            i < j <==> first > second || first == second && order[i].pid < order[j].pid
        }),
{
    if i < j {
        assert(busier(order[i], order[j]));
    } else if j < i {
        assert(busier(order[j], order[i]));
    }
}

/// A ranking holds every process, each of them once.
pub proof fn law_ranking_holds_every_process_once(
    order: Seq<ProcessTick>,
    procs: Map<u32, ProcessTick>,
    pid: u32,
)
    requires
        is_ranking(order, procs),
    ensures
        procs.contains_key(pid) <==> order.contains(procs[pid]) && procs[pid].pid == pid,
        order.no_duplicates(),
{
    if procs.contains_key(pid) {
        let i = choose|i: int| 0 <= i < order.len() && (#[trigger] order[i]).pid == pid;
        assert(order[i] == procs[pid]);
    }
    if order.contains(procs[pid]) && procs[pid].pid == pid {
        let i = choose|i: int| 0 <= i < order.len() && order[i] == procs[pid];
        assert(procs.contains_key(order[i].pid));
    }
    assert forall|i: int, j: int| 0 <= i < order.len() && 0 <= j < order.len() && i != j implies
        order[i] != order[j] by {
        law_ranking_goes_by_bytes(order, procs, i, j);
        law_ranking_goes_by_bytes(order, procs, j, i);
    }
}

/// However many processes there are, they can be ranked.
pub proof fn law_processes_can_be_ranked(procs: Map<u32, ProcessTick>)
    requires
        procs.dom().finite(),
        comparable(procs),
    ensures
        is_ranking(ranking(procs), procs),
    decreases procs.dom().len(),
{
    if procs.dom().len() == 0 {
        assert(procs.dom() =~= Set::<u32>::empty());
        assert(!exists|pid: u32| procs.dom().contains(pid));
        assert(is_ranking(Seq::<ProcessTick>::empty(), procs));
    } else {
        let first = lemma_busiest(procs);
        let rest = procs.remove(first);
        assert(rest.dom() =~= procs.dom().remove(first));
        assert(comparable(rest)) by {
            assert forall|pid: u32| #[trigger] rest.contains_key(pid) implies rest[pid].pid == pid
                && !rest[pid].total().nan() by {
                assert(procs.contains_key(pid));
            }
        }
        law_processes_can_be_ranked(rest);
        let tail = ranking(rest);
        let order = seq![procs[first]] + tail;
        assert(is_ranking(order, procs)) by {
            assert forall|i: int, j: int| 0 <= i < j < order.len() implies busier(
                order[i],
                order[j],
            ) by {
                assert(order[j] == tail[j - 1]);
                assert(rest.contains_key(tail[j - 1].pid));
                assert(procs.contains_key(tail[j - 1].pid));
                if i > 0 {
                    assert(order[i] == tail[i - 1]);
                    assert(busier(tail[i - 1], tail[j - 1]));
                }
            }
            assert forall|i: int| 0 <= i < order.len() implies procs.contains_key(
                (#[trigger] order[i]).pid,
            ) && procs[order[i].pid] == order[i] by {
                if i > 0 {
                    assert(order[i] == tail[i - 1]);
                    assert(rest.contains_key(tail[i - 1].pid));
                } else {
                    assert(procs.contains_key(first));
                }
            }
            assert forall|pid: u32| #[trigger] procs.contains_key(pid) implies exists|i: int|
                0 <= i < order.len() && (#[trigger] order[i]).pid == pid by {
                if pid == first {
                    assert(order[0].pid == pid);
                } else {
                    assert(rest.contains_key(pid));
                    let i = choose|i: int| 0 <= i < tail.len() && (#[trigger] tail[i]).pid == pid;
                    assert(order[i + 1].pid == pid);
                }
            }
        }
    }
}

/// The busiest of some processes.
proof fn lemma_busiest(procs: Map<u32, ProcessTick>) -> (first: u32)
    requires
        procs.dom().finite(),
        procs.dom().len() > 0,
        comparable(procs),
    ensures
        procs.contains_key(first),
        forall|pid: u32| #[trigger]
            procs.contains_key(pid) && pid != first ==> busier(procs[first], procs[pid]),
    decreases procs.dom().len(),
{
    let one = procs.dom().choose();
    assert(procs.contains_key(one));
    let rest = procs.remove(one);
    assert(rest.dom() =~= procs.dom().remove(one));
    if rest.dom().len() == 0 {
        assert(rest.dom() =~= Set::<u32>::empty());
        assert forall|pid: u32| #[trigger] procs.contains_key(pid) && pid != one implies busier(
            procs[one],
            procs[pid],
        ) by {
            assert(rest.dom().contains(pid));
        }
        one
    } else {
        assert(comparable(rest)) by {
            assert forall|pid: u32| #[trigger] rest.contains_key(pid) implies rest[pid].pid == pid
                && !rest[pid].total().nan() by {
                assert(procs.contains_key(pid));
            }
        }
        let other = lemma_busiest(rest);
        assert(procs.contains_key(other));
        let first = if busier(procs[one], procs[other]) {
            one
        } else {
            other
        };
        assert forall|pid: u32| #[trigger] procs.contains_key(pid) && pid != first implies busier(
            procs[first],
            procs[pid],
        ) by {
            if pid != one && pid != other {
                assert(rest.contains_key(pid));
                assert(busier(procs[other], procs[pid]));
            }
        }
        first
    }
}

/// The busiest holder is the owner: whoever holds the path, is in the latest
/// reading and is outdone by no other such process is named, and where there
/// is none, nobody is.
pub proof fn law_the_busiest_holder_is_the_owner(
    collector: ProcessCollector,
    path: Seq<u8>,
    owner: Option<ProcessTick>,
)
    requires
        collector.wf(),
        match owner {
            Some(tick) => {
                &&& collector.holders(path).contains_key(tick.pid)
                &&& collector.holders(path)[tick.pid] == tick
                &&& forall|pid: u32| #[trigger]
                    collector.holders(path).contains_key(pid) ==> {
                        let other = collector.holders(path)[pid];
                        let named = tick.read_bps.sum(tick.write_bps).rank();
                        let moved = other.read_bps.sum(other.write_bps).rank();
                        named > moved || named == moved && tick.pid <= pid
                    }
            },
            None => forall|pid: u32| !#[trigger] collector.holders(path).contains_key(pid),
        },
    ensures
        owner_of(collector, path) == owner,
{
    let holders = collector.holders(path);
    let key = path_key(path);
    assert(holders.dom().finite()) by {
        if collector.owners@.contains_key(key) {
            let pids = collector.owners@[key].to_set();
            vstd::seq_lib::seq_to_set_is_finite(collector.owners@[key]);
            vstd::set_lib::lemma_set_subset_finite(pids, holders.dom());
        }
    }
    assert(comparable(holders)) by {
        assert forall|pid: u32| #[trigger] holders.contains_key(pid) implies holders[pid].pid == pid
            && !holders[pid].total().nan() by {
            assert(collector.procs@.contains_key(pid) || collector.idle@.contains_key(pid));
        }
    }
    law_processes_can_be_ranked(holders);
    let order = ranking(holders);
    match owner {
        Some(tick) => {
            let at = choose|i: int| 0 <= i < order.len() && (#[trigger] order[i]).pid == tick.pid;
            if at > 0 {
                assert(holders.contains_key(order[0].pid));
                law_ranking_goes_by_bytes(order, holders, 0, at);
            }
        },
        None => {
            if order.len() > 0 {
                assert(holders.contains_key(order[0].pid));
            }
        },
    }
}

/// A holder of a path is a process of the latest reading that the index names
/// under it, with the rates of that reading.
pub proof fn law_holders_have_their_own_rates(collector: ProcessCollector, path: Seq<u8>, pid: u32)
    ensures
        collector.holders(path).contains_key(pid) <==> collector.owners@.contains_key(path_key(path))
            && collector.owners@[path_key(path)].contains(pid) && (collector.procs@.contains_key(pid)
            || collector.idle@.contains_key(pid)),
        collector.holders(path).contains_key(pid) ==> collector.holders(path)[pid] == (
        if collector.procs@.contains_key(pid) {
            collector.procs@[pid]
        } else {
            collector.idle@[pid]
        }),
{
}

/// A process that moved bytes is published with the bytes it read over the
/// time and the bytes it wrote over the time, each on its own; one that moved
/// none is published apart, with neither.
pub proof fn law_rates_are_bytes_over_time(samples: Seq<UsageSample>, elapsed: Double, i: int)
    requires
        elapsed.positive(),
        0 <= i < samples.len(),
        forall|k: int|
            0 <= k < samples.len() && k != i ==> (#[trigger] samples[k]).pid != samples[i].pid,
    ensures
        ({
            let sample = samples[i];
            let rates = published(samples, elapsed);
            let idle = published_idle(samples, elapsed);
            if sample.read_bytes > 0 || sample.written_bytes > 0 {
                &&& rates.contains_key(sample.pid) && !idle.contains_key(sample.pid)
                &&& rates[sample.pid].pid == sample.pid
                &&& rates[sample.pid].name@ == sample.name@
                &&& rates[sample.pid].read_bps == Double::of_whole(sample.read_bytes as nat).ratio(
                    elapsed,
                )
                &&& rates[sample.pid].write_bps == Double::of_whole(
                    sample.written_bytes as nat,
                ).ratio(elapsed)
            } else {
                &&& idle.contains_key(sample.pid) && !rates.contains_key(sample.pid)
                &&& idle[sample.pid].pid == sample.pid
                &&& idle[sample.pid].name@ == sample.name@
                &&& idle[sample.pid].read_bps.bits == 0
                &&& idle[sample.pid].write_bps.bits == 0
            }
        }),
{
    lemma_sampled_once(samples, elapsed, i);
}

/// Nobody is published who was not sampled.
pub proof fn law_only_sampled_processes_are_published(
    samples: Seq<UsageSample>,
    elapsed: Double,
    pid: u32,
)
    requires
        published(samples, elapsed).contains_key(pid) || published_idle(
            samples,
            elapsed,
        ).contains_key(pid),
    ensures
        elapsed.nan() || elapsed.positive(),
        exists|i: int| 0 <= i < samples.len() && (#[trigger] samples[i]).pid == pid,
{
    if published(samples, elapsed).contains_key(pid) {
        law_only_what_moved_has_a_rate(samples, elapsed, pid);
    } else {
        lemma_idle_sampled(samples, pid);
    }
}

proof fn lemma_idle_sampled(samples: Seq<UsageSample>, pid: u32)
    requires
        idle_in(samples).contains_key(pid),
    ensures
        exists|i: int| 0 <= i < samples.len() && (#[trigger] samples[i]).pid == pid,
    decreases samples.len(),
{
    if samples.len() > 0 {
        let init = samples.drop_last();
        let end = samples.len() - 1;
        if samples[end].pid != pid {
            lemma_idle_sampled(init, pid);
            let i = choose|i: int| 0 <= i < init.len() && (#[trigger] init[i]).pid == pid;
            assert(samples[i] == init[i]);
        }
    }
}

/// A reading is due again exactly when its interval has passed since the last
/// one, and at once where there was none.
pub proof fn law_readings_come_due(last: u64, interval: u64, now: u64)
    requires
        interval > 0,
    ensures
        due(None, interval, now),
        due(Some(last), interval, now) <==> now as int - last as int >= interval as int,
        RATE_INTERVAL == 1_000 * 1_000_000,
        SCAN_INTERVAL == 2_000 * 1_000_000,
{
}

/// Tables are counted one by one: what two lists hold together, each of them
/// holds a part of.
pub proof fn law_readable_tables_add_up(a: Seq<ProcessFiles>, b: Seq<ProcessFiles>, one: ProcessFiles)
    ensures
        readable(a + b) == readable(a) + readable(b),
        readable(seq![one]) == (if one.files is Some {
            1nat
        } else {
            0nat
        }),
    decreases b.len(),
{
    if b.len() == 0 {
        assert(a + b =~= a);
    } else {
        law_readable_tables_add_up(a, b.drop_last(), one);
        assert((a + b).drop_last() =~= a + b.drop_last());
        assert((a + b).last() == b.last());
    }
    assert(seq![one].drop_last() =~= seq![]);
    assert(readable(seq![one].drop_last()) == 0);
}

/// Listings are turned into tables one by one and in their order: an open one
/// into the paths of its process, a denied one into a table without any, and
/// a gone one into none.
pub proof fn law_listings_become_tables(
    a: Seq<ListedProcess>,
    b: Seq<ListedProcess>,
    one: ListedProcess,
)
    ensures
        tables_of(a + b) == tables_of(a) + tables_of(b),
        tables_of(seq![one]) == (match one.listing {
            Listing::Open(paths) => seq![ProcessFiles { pid: one.pid, files: Some(paths) }],
            Listing::Gone => seq![],
            Listing::Denied => seq![ProcessFiles { pid: one.pid, files: None }],
        }),
    decreases b.len(),
{
    if b.len() == 0 {
        assert(a + b =~= a);
        assert(tables_of(a) + tables_of(b) =~= tables_of(a));
    } else {
        law_listings_become_tables(a, b.drop_last(), one);
        assert((a + b).drop_last() =~= a + b.drop_last());
        assert((a + b).last() == b.last());
        assert(tables_of(a + b) =~= tables_of(a) + tables_of(b));
    }
    let single = seq![one];
    assert(single.drop_last() =~= seq![]);
    assert(tables_of(single.drop_last()) =~= seq![]);
    assert(tables_of(single) =~= (match one.listing {
        Listing::Open(paths) => seq![ProcessFiles { pid: one.pid, files: Some(paths) }],
        Listing::Gone => seq![],
        Listing::Denied => seq![ProcessFiles { pid: one.pid, files: None }],
    }));
}

/// The time over which bytes are counted is the time that passed between the
/// two readings, and none before the second.
pub proof fn law_elapsed_time_is_measured(last: u64, now: u64)
    ensures
        now >= last ==> elapsed_since(Some(last), now) == in_seconds((now - last) as u64),
        now < last ==> elapsed_since(Some(last), now) == in_seconds(0),
        elapsed_since(None, now).rank() == 0 && !elapsed_since(None, now).nan(),
{
}

} // verus!
