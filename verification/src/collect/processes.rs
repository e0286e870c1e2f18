//! Process attribution for Hot Files.
//!
//! Neither of the event sources behind the Hot Files tab carries a pid, so
//! the answer to "which process is writing this file" is assembled from two
//! other readings, both of them unprivileged:
//!
//! - **Per-process byte counts.** They say who is doing IO, in bytes, but
//!   not to which path.
//! - **Open file descriptors.** They say who is holding a path open, but not
//!   whether they are writing it.
//!
//! Crossing the two gives a per-path list of candidate processes ordered by
//! how much they are moving. That is an inference, not a measurement: the
//! descriptor scan is sampled, and without root it is partial.
//! [`ProcessCollector::coverage`] tells how much of the process table was
//! readable.
use std::collections::HashMap;

use vstd::prelude::*;
use vstd::utf8::valid_utf8;

use crate::binary64::{lemma_nearest_positive, lemma_units_monotone, Double};
use crate::collect::owners::{noted, path_key, OwnerIndex, PathKey};
use crate::collect::ranking::{busier, comparable, insert_ranked, is_ranking, lemma_ranking_is, ranking, ticks};
use crate::paths::{begins_with, FilePath};
use crate::text::{clip, clipped, decimal, decimal_text};

verus! {

/// Nanoseconds in a second.
pub const SECOND: u64 = 1_000_000_000;

/// How often the per-process byte rates are re-read, in nanoseconds.
pub const RATE_INTERVAL: u64 = 1_000_000_000;

/// How often the descriptor tables are walked, in nanoseconds. A table
/// changes far more slowly than a byte rate, and the scan is the part that
/// touches every process on the box.
pub const SCAN_INTERVAL: u64 = 2_000_000_000;

/// One process, as far as disk IO is concerned.
#[derive(Debug)]
pub struct ProcessTick {
    pub pid: u32,
    /// Executable name, not the full command line.
    pub name: String,
    pub read_bps: Double,
    pub write_bps: Double,
}

/// `name (pid)`.
pub open spec fn full_label(name: Seq<char>, pid: u32) -> Seq<char> {
    name + pid_label(pid)
}

/// ` (pid)`.
pub open spec fn pid_label(pid: u32) -> Seq<char> {
    " ("@ + decimal(pid as nat) + ")"@
}

/// `name (pid)` in at most `width` characters: the name gives way first, and
/// where not even one character of it is left, only the pid stays.
pub open spec fn label_text(name: Seq<char>, pid: u32, width: nat) -> Seq<char> {
    let room = width - pid_label(pid).len() - 1;
    if full_label(name, pid).len() <= width {
        full_label(name, pid)
    } else if room <= 0 {
        clipped(decimal(pid as nat), width)
    } else {
        clipped(name, room as nat) + "\u{2026}"@ + pid_label(pid)
    }
}

impl ProcessTick {
    /// Read plus write.
    pub open spec fn total(self) -> Double {
        self.read_bps.sum(self.write_bps)
    }

    /// Read plus write. What the Hot Files tab sorts owners by: a file being
    /// read hard is as interesting as one being written.
    pub fn total_bps(&self) -> (r: Double)
        ensures
            r == self.total(),
    {
        self.read_bps.plus(self.write_bps)
    }

    /// `name (pid)`, clipped to `width`.
    ///
    /// The pid survives clipping and the name gives way: the pid is what you
    /// type into `kill`, and it is the shorter half.
    pub fn label(&self, width: usize) -> (r: String)
        ensures
            r@ == label_text(self.name@, self.pid, width as nat),
            r@.len() <= width,
    {
        let digits: String = decimal_text(self.pid as u64);
        let pid: String = " (".to_owned().concat(digits.as_str()).concat(")");
        let full: String = self.name.clone().concat(pid.as_str());
        if full.as_str().unicode_len() <= width {
            return full;
        }
        let pid_len: usize = pid.as_str().unicode_len();
        proof {
            reveal_strlit("\u{2026}");
        }
        if pid_len >= width || width - pid_len == 1 {
            return clip(digits.as_str(), width);
        }
        let room: usize = width - pid_len - 1;
        clip(self.name.as_str(), room).concat("\u{2026}").concat(pid.as_str())
    }
}

impl Clone for ProcessTick {
    fn clone(&self) -> (r: ProcessTick)
        ensures
            r == *self,
    {
        ProcessTick {
            pid: self.pid,
            name: self.name.clone(),
            read_bps: self.read_bps,
            write_bps: self.write_bps,
        }
    }
}

/// How much of the process table we could actually see.
#[derive(Debug, Clone, Copy, PartialEq, Eq, Structural)]
pub struct Coverage {
    /// Processes whose descriptor table we read.
    pub visible: usize,
    /// Processes that exist but denied us, almost always another uid.
    pub hidden: usize,
}

impl Default for Coverage {
    fn default() -> (r: Coverage)
        ensures
            r == (Coverage { visible: 0, hidden: 0 }),
    {
        Coverage { visible: 0, hidden: 0 }
    }
}

impl Coverage {
    /// Every process counted.
    pub fn total(&self) -> (r: usize)
        requires
            self.visible + self.hidden <= usize::MAX,
        ensures
            r == self.visible + self.hidden,
    {
        self.visible + self.hidden
    }

    /// True when a part of the box is hidden, and the tab should say so
    /// rather than let a half-empty column speak for itself.
    pub fn is_partial(&self) -> (r: bool)
        ensures
            r == (self.hidden > 0),
    {
        self.hidden > 0
    }
}

/// What one process read and wrote since the previous reading.
#[derive(Debug)]
pub struct UsageSample {
    pub pid: u32,
    pub name: String,
    pub read_bytes: u64,
    pub written_bytes: u64,
}

impl UsageSample {
    /// The rates over `elapsed` seconds.
    pub open spec fn tick(self, elapsed: Double) -> ProcessTick {
        ProcessTick {
            pid: self.pid,
            name: self.name,
            read_bps: Double::of_whole(self.read_bytes as nat).ratio(elapsed),
            write_bps: Double::of_whole(self.written_bytes as nat).ratio(elapsed),
        }
    }

    /// The process moved bytes.
    pub open spec fn moved(self) -> bool {
        self.read_bytes != 0 || self.written_bytes != 0
    }

    /// The rates of a process that moved none.
    pub open spec fn idle_tick(self) -> ProcessTick {
        ProcessTick {
            pid: self.pid,
            name: self.name,
            read_bps: Double { bits: 0 },
            write_bps: Double { bits: 0 },
        }
    }
}

/// The rates of the processes that moved bytes, by pid.
pub open spec fn rates_over(samples: Seq<UsageSample>, elapsed: Double) -> Map<u32, ProcessTick>
    decreases samples.len(),
{
    if samples.len() == 0 {
        Map::empty()
    } else {
        let before = rates_over(samples.drop_last(), elapsed);
        let sample = samples.last();
        if sample.moved() {
            before.insert(sample.pid, sample.tick(elapsed))
        } else {
            before
        }
    }
}

/// The processes that moved no bytes, by pid, with rates of zero.
pub open spec fn idle_in(samples: Seq<UsageSample>) -> Map<u32, ProcessTick>
    decreases samples.len(),
{
    if samples.len() == 0 {
        Map::empty()
    } else {
        let before = idle_in(samples.drop_last());
        let sample = samples.last();
        if sample.moved() {
            before
        } else {
            before.insert(sample.pid, sample.idle_tick())
        }
    }
}

/// The rates that a reading publishes: none where no time has passed, since
/// there is no earlier sample to difference against.
pub open spec fn published(samples: Seq<UsageSample>, elapsed: Double) -> Map<u32, ProcessTick> {
    if !elapsed.nan() && !elapsed.positive() {
        Map::empty()
    } else {
        rates_over(samples, elapsed)
    }
}

/// The idle processes that a reading publishes: none where no time has
/// passed, since nothing says yet that they are idle.
pub open spec fn published_idle(samples: Seq<UsageSample>, elapsed: Double) -> Map<
    u32,
    ProcessTick,
> {
    if !elapsed.nan() && !elapsed.positive() {
        Map::empty()
    } else {
        idle_in(samples)
    }
}

/// `nanos` nanoseconds in seconds: the whole seconds plus the rest.
pub open spec fn in_seconds(nanos: u64) -> Double {
    Double::of_whole((nanos / SECOND) as nat).sum(
        Double::of_whole((nanos % SECOND) as nat).ratio(Double::of_whole(SECOND as nat)),
    )
}

/// `nanos` nanoseconds in seconds.
fn as_seconds(nanos: u64) -> (r: Double)
    ensures
        r == in_seconds(nanos),
{
    Double::from_u64(nanos / SECOND).plus(
        Double::from_u64(nanos % SECOND).over(Double::from_u64(SECOND)),
    )
}

/// The time from `then` to `now`, or none where `then` is later.
pub open spec fn since(then: u64, now: u64) -> u64 {
    if now >= then {
        (now - then) as u64
    } else {
        0
    }
}

/// A reading that was last taken at `last` is due again.
pub open spec fn due(last: Option<u64>, interval: u64, now: u64) -> bool {
    match last {
        None => true,
        Some(then) => since(then, now) >= interval,
    }
}

/// Whether a reading that was last taken at `last` is due again.
fn is_due(last: Option<u64>, interval: u64, now: u64) -> (r: bool)
    ensures
        r == due(last, interval, now),
{
    match last {
        None => true,
        Some(then) => if now >= then {
            now - then >= interval
        } else {
            interval == 0
        },
    }
}

/// Paths worth indexing. Sockets, pipes and anonymous inodes have no path;
/// `/proc`, `/sys` and `/dev` have one but never appear in Hot Files, since
/// the watcher is rooted on real directories. A name that is no UTF-8 is
/// legal and stays.
pub open spec fn indexable(path: Seq<u8>) -> bool {
    valid_utf8(path) ==> {
        &&& begins_with(path, "/"@)
        &&& !begins_with(path, "/proc/"@)
        &&& !begins_with(path, "/sys/"@)
        &&& !begins_with(path, "/dev/"@)
    }
}

/// Whether a path is worth indexing.
pub fn is_indexable(path: &FilePath) -> (r: bool)
    ensures
        r == indexable(path@),
{
    if !path.is_text() {
        return true;
    }
    path.begins("/") && !path.begins("/proc/") && !path.begins("/sys/") && !path.begins("/dev/")
}

/// The paths that one process holds open; none where its table was denied.
#[derive(Debug)]
pub struct ProcessFiles {
    pub pid: u32,
    pub files: Option<Vec<FilePath>>,
}

/// What came of listing the open files of a process.
#[derive(Debug)]
pub enum Listing {
    /// The paths worth indexing that it holds open.
    Open(Vec<FilePath>),
    /// It exited before its table was read.
    Gone,
    /// It exists, but denied us.
    Denied,
}

impl Listing {
    /// What a table that was asked for says; none is a denial.
    pub fn of(files: Option<Vec<FilePath>>) -> (r: Listing)
        ensures
            r == (match files {
                Some(paths) => Listing::Open(paths),
                None => Listing::Denied,
            }),
    {
        match files {
            Some(paths) => Listing::Open(paths),
            None => Listing::Denied,
        }
    }
}

/// A process and what came of listing its open files.
#[derive(Debug)]
pub struct ListedProcess {
    pub pid: u32,
    pub listing: Listing,
}

/// The tables of the processes that exist, in their order. One that is gone
/// has none: it is neither visible nor hidden.
pub open spec fn tables_of(listed: Seq<ListedProcess>) -> Seq<ProcessFiles>
    decreases listed.len(),
{
    if listed.len() == 0 {
        seq![]
    } else {
        let before = tables_of(listed.drop_last());
        let pid = listed.last().pid;
        match listed.last().listing {
            Listing::Open(paths) => before.push(ProcessFiles { pid, files: Some(paths) }),
            Listing::Gone => before,
            Listing::Denied => before.push(ProcessFiles { pid, files: None }),
        }
    }
}

/// The tables of the processes that exist. A process can exit between being
/// listed and being asked for its files; that is no denial.
pub fn existing_tables(listed: Vec<ListedProcess>) -> (r: Vec<ProcessFiles>)
    ensures
        r@ == tables_of(listed@),
{
    let ghost all = listed@;
    let mut out: Vec<ProcessFiles> = Vec::new();
    for process in it: listed
        invariant
            it.seq() == all,
            out@ == tables_of(all.take(it.index())),
    {
        proof {
            assert(all.take(it.index() + 1).drop_last() =~= all.take(it.index()));
            assert(all.take(it.index() + 1).last() == process);
        }
        let pid: u32 = process.pid;
        match process.listing {
            Listing::Open(paths) => {
                out.push(ProcessFiles { pid, files: Some(paths) });
            },
            Listing::Gone => {},
            Listing::Denied => {
                out.push(ProcessFiles { pid, files: None });
            },
        }
    }
    assert(all.take(all.len() as int) =~= all);
    out
}

/// The index after process `pid` was seen with each of `paths` open.
pub open spec fn noted_all(
    index: Map<PathKey, Seq<u32>>,
    paths: Seq<FilePath>,
    pid: u32,
) -> Map<PathKey, Seq<u32>>
    decreases paths.len(),
{
    if paths.len() == 0 {
        index
    } else {
        noted(noted_all(index, paths.drop_last(), pid), paths.last()@, pid)
    }
}

/// The open files of every process, turned into path -> pids.
pub open spec fn inverted(tables: Seq<ProcessFiles>) -> Map<PathKey, Seq<u32>>
    decreases tables.len(),
{
    if tables.len() == 0 {
        Map::empty()
    } else {
        let before = inverted(tables.drop_last());
        match tables.last().files {
            Some(paths) => noted_all(before, paths@, tables.last().pid),
            None => before,
        }
    }
}

/// How many tables were readable.
pub open spec fn readable(tables: Seq<ProcessFiles>) -> nat
    decreases tables.len(),
{
    if tables.len() == 0 {
        0
    } else {
        readable(tables.drop_last()) + if tables.last().files is Some {
            1nat
        } else {
            0nat
        }
    }
}

/// Walks every process's open files and inverts it into path -> pids. A
/// process that denied us counts as hidden, not as one with nothing open.
pub fn scan_open_files(tables: &Vec<ProcessFiles>) -> (r: (OwnerIndex, Coverage))
    ensures
        r.0.wf(),
        r.0@ == inverted(tables@),
        r.1.visible == readable(tables@),
        r.1.visible + r.1.hidden == tables@.len(),
{
    let mut owners: OwnerIndex = OwnerIndex::new();
    let mut coverage: Coverage = Coverage { visible: 0, hidden: 0 };
    let mut i: usize = 0;
    while i < tables.len()
        invariant
            i <= tables.len(),
            owners.wf(),
            owners@ == inverted(tables@.take(i as int)),
            coverage.visible == readable(tables@.take(i as int)),
            coverage.visible + coverage.hidden == i,
        decreases tables.len() - i,
    {
        let pid: u32 = tables[i].pid;
        assert(tables@.take(i + 1).drop_last() =~= tables@.take(i as int));
        match &tables[i].files {
            Some(paths) => {
                coverage.visible = coverage.visible + 1;
                let ghost before = owners@;
                let mut j: usize = 0;
                while j < paths.len()
                    invariant
                        j <= paths.len(),
                        owners.wf(),
                        owners@ == noted_all(before, paths@.take(j as int), pid),
                    decreases paths.len() - j,
                {
                    assert(paths@.take(j + 1).drop_last() =~= paths@.take(j as int));
                    owners.note(&paths[j], pid);
                    j = j + 1;
                }
                assert(paths@.take(j as int) =~= paths@);
            },
            None => {
                coverage.hidden = coverage.hidden + 1;
            },
        }
        i = i + 1;
    }
    assert(tables@.take(i as int) =~= tables@);
    (owners, coverage)
}

/// The two readings, and what they say together. Times are nanoseconds on
/// one clock.
#[derive(Debug)]
pub struct ProcessCollector {
    /// Latest rates of the processes that moved bytes, by pid.
    pub procs: HashMap<u32, ProcessTick>,
    /// The processes that moved none, by pid, with rates of zero. They can
    /// own a path, but are not among the busiest.
    pub idle: HashMap<u32, ProcessTick>,
    /// Reverse index: path -> pids holding it open.
    pub owners: OwnerIndex,
    pub coverage: Coverage,
    pub last_rates: Option<u64>,
    pub last_scan: Option<u64>,
}

impl ProcessCollector {
    /// Each process is filed under its pid and can be ranked, no path is
    /// indexed twice, and the processes can be counted.
    pub open spec fn wf(&self) -> bool {
        &&& comparable(self.procs@)
        &&& comparable(self.idle@)
        &&& self.owners.wf()
        &&& self.coverage.visible + self.coverage.hidden <= usize::MAX
    }

    /// Every process of the latest reading, busy or idle.
    pub open spec fn known(&self) -> Map<u32, ProcessTick> {
        self.idle@.union_prefer_right(self.procs@)
    }

    /// The processes that hold `path` open, busy or idle.
    pub open spec fn holders(&self, path: Seq<u8>) -> Map<u32, ProcessTick> {
        let key = path_key(path);
        if self.owners@.contains_key(key) {
            self.known().restrict(self.owners@[key].to_set())
        } else {
            Map::empty()
        }
    }

    /// Nothing read yet.
    pub fn new() -> (r: ProcessCollector)
        ensures
            r.wf(),
            r.procs@ == Map::<u32, ProcessTick>::empty(),
            r.idle@ == Map::<u32, ProcessTick>::empty(),
            r.owners@ == Map::<PathKey, Seq<u32>>::empty(),
            r.coverage == (Coverage { visible: 0, hidden: 0 }),
            r.last_rates is None,
            r.last_scan is None,
    {
        ProcessCollector {
            procs: HashMap::new(),
            idle: HashMap::new(),
            owners: OwnerIndex::new(),
            coverage: Coverage { visible: 0, hidden: 0 },
            last_rates: None,
            last_scan: None,
        }
    }

    /// Whether the byte counts are to be read at `now`.
    pub fn rates_due(&self, now: u64) -> (r: bool)
        ensures
            r == due(self.last_rates, RATE_INTERVAL, now),
    {
        is_due(self.last_rates, RATE_INTERVAL, now)
    }

    /// Whether the descriptor tables are to be read at `now`.
    pub fn scan_due(&self, now: u64) -> (r: bool)
        ensures
            r == due(self.last_scan, SCAN_INTERVAL, now),
    {
        is_due(self.last_scan, SCAN_INTERVAL, now)
    }

    /// Replaces the rates by those of `samples` over `elapsed_secs`. A process
    /// that moved nothing is kept apart, with rates of zero.
    pub fn refresh_rates(&mut self, samples: &Vec<UsageSample>, elapsed_secs: Double)
        ensures
            final(self).procs@ == published(samples@, elapsed_secs),
            !elapsed_secs.nan() ==> comparable(final(self).procs@),
            final(self).idle@ == published_idle(samples@, elapsed_secs),
            comparable(final(self).idle@),
            elapsed_secs.positive() ==> forall|i: int|
                0 <= i < samples@.len() && sampled_once(samples@, i) ==> {
                    let sample = #[trigger] samples@[i];
                    let idle = sample.read_bytes == 0 && sample.written_bytes == 0;
                    &&& final(self).procs@.contains_key(sample.pid) == !idle
                    &&& final(self).idle@.contains_key(sample.pid) == idle
                    &&& !idle ==> {
                        let tick = final(self).procs@[sample.pid];
                        &&& tick.pid == sample.pid
                        &&& tick.name@ == sample.name@
                        &&& tick.read_bps == Double::of_whole(sample.read_bytes as nat).ratio(
                            elapsed_secs,
                        )
                        &&& tick.write_bps == Double::of_whole(sample.written_bytes as nat).ratio(
                            elapsed_secs,
                        )
                    }
                    &&& idle ==> {
                        let tick = final(self).idle@[sample.pid];
                        &&& tick.pid == sample.pid
                        &&& tick.name@ == sample.name@
                        &&& tick.read_bps.bits == 0
                        &&& tick.write_bps.bits == 0
                    }
                },
            final(self).owners == old(self).owners,
            final(self).coverage == old(self).coverage,
            final(self).last_rates == old(self).last_rates,
            final(self).last_scan == old(self).last_scan,
    {
        broadcast use vstd::std_specs::hash::group_hash_axioms;

        self.procs.clear();
        self.idle.clear();
        // The first reading has no previous sample to difference against,
        // so it counts the lifetime totals. Publishing that as a rate would
        // put a browser that has written 4 GB since login at the top of the
        // table forever.
        if !elapsed_secs.is_nan() && !elapsed_secs.is_positive() {
            return ;
        }
        let mut i: usize = 0;
        while i < samples.len()
            invariant
                i <= samples.len(),
                elapsed_secs.nan() || elapsed_secs.positive(),
                self.procs@ == rates_over(samples@.take(i as int), elapsed_secs),
                !elapsed_secs.nan() ==> comparable(self.procs@),
                self.idle@ == idle_in(samples@.take(i as int)),
                comparable(self.idle@),
                self.owners == old(self).owners,
                self.coverage == old(self).coverage,
                self.last_rates == old(self).last_rates,
                self.last_scan == old(self).last_scan,
            decreases samples.len() - i,
        {
            let sample: &UsageSample = &samples[i];
            assert(samples@.take(i + 1).drop_last() =~= samples@.take(i as int));
            if sample.read_bytes != 0 || sample.written_bytes != 0 {
                let tick: ProcessTick = ProcessTick {
                    pid: sample.pid,
                    name: sample.name.clone(),
                    read_bps: Double::from_u64(sample.read_bytes).over(elapsed_secs),
                    write_bps: Double::from_u64(sample.written_bytes).over(elapsed_secs),
                };
                proof {
                    if !elapsed_secs.nan() {
                        Double::lemma_rates_comparable(
                            sample.read_bytes as nat,
                            sample.written_bytes as nat,
                            elapsed_secs,
                        );
                    }
                    assert(tick == samples@[i as int].tick(elapsed_secs));
                }
                self.procs.insert(sample.pid, tick);
            } else {
                let tick: ProcessTick = ProcessTick {
                    pid: sample.pid,
                    name: sample.name.clone(),
                    read_bps: Double { bits: 0 },
                    write_bps: Double { bits: 0 },
                };
                proof {
                    assert(tick == samples@[i as int].idle_tick());
                    lemma_idle_total(samples@[i as int]);
                }
                self.idle.insert(sample.pid, tick);
            }
            i = i + 1;
        }
        assert(samples@.take(i as int) =~= samples@);
        proof {
            assert forall|k: int|
                0 <= k < samples@.len() && sampled_once(samples@, k) implies {
                let sample = #[trigger] samples@[k];
                let idle = sample.read_bytes == 0 && sample.written_bytes == 0;
                &&& self.procs@.contains_key(sample.pid) == !idle
                &&& self.idle@.contains_key(sample.pid) == idle
                &&& !idle ==> self.procs@[sample.pid] == sample.tick(elapsed_secs)
                &&& idle ==> self.idle@[sample.pid] == sample.idle_tick()
            } by {
                lemma_sampled_once(samples@, elapsed_secs, k);
            }
        }
    }

    /// Takes the readings that are due at `now`: the byte counts since the
    /// previous reading, and the descriptor tables. What is not due is left
    /// unread, so this is safe to call every frame.
    pub fn refresh(&mut self, now: u64, samples: &Vec<UsageSample>, tables: &Vec<ProcessFiles>)
        requires
            old(self).wf(),
        ensures
            final(self).wf(),
            final(self).procs@ == (if due(old(self).last_rates, RATE_INTERVAL, now) {
                published(samples@, elapsed_since(old(self).last_rates, now))
            } else {
                old(self).procs@
            }),
            final(self).idle@ == (if due(old(self).last_rates, RATE_INTERVAL, now) {
                published_idle(samples@, elapsed_since(old(self).last_rates, now))
            } else {
                old(self).idle@
            }),
            due(old(self).last_rates, RATE_INTERVAL, now) && old(self).last_rates is Some
                ==> forall|i: int|
                0 <= i < samples@.len() ==> final(self).known().contains_key(
                    (#[trigger] samples@[i]).pid,
                ),
            final(self).last_rates == (if due(old(self).last_rates, RATE_INTERVAL, now) {
                Some(now)
            } else {
                old(self).last_rates
            }),
            final(self).owners@ == (if due(old(self).last_scan, SCAN_INTERVAL, now) {
                inverted(tables@)
            } else {
                old(self).owners@
            }),
            due(old(self).last_scan, SCAN_INTERVAL, now) ==> final(self).coverage.visible
                == readable(tables@) && final(self).coverage.visible + final(self).coverage.hidden
                == tables@.len(),
            !due(old(self).last_scan, SCAN_INTERVAL, now) ==> final(self).coverage == old(
                self,
            ).coverage,
            final(self).last_scan == (if due(old(self).last_scan, SCAN_INTERVAL, now) {
                Some(now)
            } else {
                old(self).last_scan
            }),
    {
        if self.rates_due(now) {
            // Elapsed is measured, not assumed: a paused app or a busy frame
            // makes the real gap longer than the interval, and dividing by
            // the nominal interval would inflate every rate.
            let elapsed: Double = match self.last_rates {
                None => Double { bits: 0 },
                Some(then) => {
                    let nanos: u64 = if now >= then {
                        now - then
                    } else {
                        0
                    };
                    proof {
                        lemma_seconds(nanos);
                    }
                    as_seconds(nanos)
                },
            };
            self.refresh_rates(samples, elapsed);
            proof {
                if self.last_rates is Some {
                    assert forall|i: int| 0 <= i < samples@.len() implies self.known().contains_key(
                        (#[trigger] samples@[i]).pid,
                    ) by {
                        lemma_sampled(samples@, elapsed, i);
                    }
                }
            }
            self.last_rates = Some(now);
        }
        if self.scan_due(now) {
            let (owners, coverage) = scan_open_files(tables);
            assert(tables.len() == tables@.len());
            self.owners = owners;
            self.coverage = coverage;
            self.last_scan = Some(now);
        }
    }

    /// The process `pid` of the latest reading.
    fn tick_of(&self, pid: u32) -> (r: Option<&ProcessTick>)
        ensures
            match r {
                Some(tick) => self.known().contains_key(pid) && *tick == self.known()[pid],
                None => !self.known().contains_key(pid),
            },
    {
        broadcast use vstd::std_specs::hash::group_hash_axioms;

        match self.procs.get(&pid) {
            Some(tick) => Some(tick),
            None => self.idle.get(&pid),
        }
    }

    /// Processes holding `path` open, busiest first. Empty when nothing
    /// visible has it open, which, unprivileged, is not the same as nothing
    /// having it open.
    pub fn owners_of(&self, path: &FilePath) -> (r: Vec<&ProcessTick>)
        requires
            self.wf(),
        ensures
            is_ranking(ticks(r@), self.holders(path@)),
            ticks(r@) == ranking(self.holders(path@)),
            forall|i: int, j: int|
                0 <= i < j < r@.len() ==> {
                    let first = (#[trigger] r@[i]).read_bps.sum(r@[i].write_bps).rank();
                    let second = (#[trigger] r@[j]).read_bps.sum(r@[j].write_bps).rank();
                    first > second || first == second && r@[i].pid < r@[j].pid
                },
            r@.len() > 0 ==> self.owners@.contains_key(path_key(path@)),
            forall|i: int|
                0 <= i < r@.len() ==> {
                    &&& self.owners@[path_key(path@)].contains((#[trigger] r@[i]).pid)
                    &&& self.procs@.contains_key(r@[i].pid) ==> *r@[i] == self.procs@[r@[i].pid]
                    &&& !self.procs@.contains_key(r@[i].pid) ==> self.idle@.contains_key(r@[i].pid)
                        && *r@[i] == self.idle@[r@[i].pid]
                },
            forall|pid: u32|
                self.owners@.contains_key(path_key(path@)) && #[trigger] self.owners@[path_key(
                    path@,
                )].contains(pid) && (self.procs@.contains_key(pid) || self.idle@.contains_key(pid))
                    ==> exists|i: int| 0 <= i < r@.len() && (#[trigger] r@[i]).pid == pid,
    {
        broadcast use vstd::std_specs::hash::group_hash_axioms;

        let mut order: Vec<&ProcessTick> = Vec::new();
        let pids: &Vec<u32> = match self.owners.get(path) {
            Some(pids) => pids,
            None => {
                proof {
                    assert(is_ranking(ticks(order@), self.holders(path@)));
                    lemma_ranking_is(ticks(order@), self.holders(path@));
                    self.lemma_owners_listed(order@, path@);
                }
                return order;
            },
        };
        let mut i: usize = 0;
        let ghost mut found = Map::<u32, ProcessTick>::empty();
        assert(self.known().restrict(pids@.take(0).to_set()) =~= found);
        while i < pids.len()
            invariant
                i <= pids.len(),
                self.wf(),
                pids@.no_duplicates(),
                found == self.known().restrict(pids@.take(i as int).to_set()),
                is_ranking(ticks(order@), found),
            decreases pids.len() - i,
        {
            let pid: u32 = pids[i];
            proof {
                lemma_restrict_step(self.known(), pids@, i as int);
            }
            match self.tick_of(pid) {
                Some(tick) => {
                    insert_ranked(&mut order, tick, Ghost(found));
                    proof {
                        found = found.insert(pid, *tick);
                    }
                },
                None => {},
            }
            i = i + 1;
        }
        proof {
            assert(pids@.take(i as int) =~= pids@);
            lemma_ranking_is(ticks(order@), self.holders(path@));
            self.lemma_owners_listed(order@, path@);
        }
        order
    }

    /// What a ranking of the holders of `path` says of each process.
    proof fn lemma_owners_listed(&self, order: Seq<&ProcessTick>, path: Seq<u8>)
        requires
            is_ranking(ticks(order), self.holders(path)),
        ensures
            forall|i: int, j: int|
                0 <= i < j < order.len() ==> {
                    let first = (#[trigger] order[i]).read_bps.sum(order[i].write_bps).rank();
                    let second = (#[trigger] order[j]).read_bps.sum(order[j].write_bps).rank();
                    first > second || first == second && order[i].pid < order[j].pid
                },
            order.len() > 0 ==> self.owners@.contains_key(path_key(path)),
            forall|i: int|
                0 <= i < order.len() ==> {
                    &&& self.owners@[path_key(path)].contains((#[trigger] order[i]).pid)
                    &&& self.procs@.contains_key(order[i].pid) ==> *order[i] == self.procs@[order[i].pid]
                    &&& !self.procs@.contains_key(order[i].pid) ==> self.idle@.contains_key(order[i].pid)
                        && *order[i] == self.idle@[order[i].pid]
                },
            forall|pid: u32|
                self.owners@.contains_key(path_key(path)) && #[trigger] self.owners@[path_key(
                    path,
                )].contains(pid) && (self.procs@.contains_key(pid) || self.idle@.contains_key(pid))
                    ==> exists|i: int| 0 <= i < order.len() && (#[trigger] order[i]).pid == pid,
    {
        let listed = ticks(order);
        if order.len() > 0 {
            assert(self.holders(path).contains_key(listed[0].pid));
        }
        assert forall|i: int, j: int| 0 <= i < j < order.len() implies {
            let first = (#[trigger] order[i]).read_bps.sum(order[i].write_bps).rank();
            let second = (#[trigger] order[j]).read_bps.sum(order[j].write_bps).rank();
            first > second || first == second && order[i].pid < order[j].pid
        } by {
            assert(busier(listed[i], listed[j]));
        }
        assert forall|i: int| 0 <= i < order.len() implies {
            &&& self.owners@[path_key(path)].contains((#[trigger] order[i]).pid)
            &&& self.procs@.contains_key(order[i].pid) ==> *order[i] == self.procs@[order[i].pid]
            &&& !self.procs@.contains_key(order[i].pid) ==> self.idle@.contains_key(order[i].pid)
                && *order[i] == self.idle@[order[i].pid]
        } by {
            assert(self.holders(path).contains_key(listed[i].pid));
        }
        assert forall|pid: u32|
            self.owners@.contains_key(path_key(path)) && #[trigger] self.owners@[path_key(
                path,
            )].contains(pid) && (self.procs@.contains_key(pid) || self.idle@.contains_key(
                pid,
            )) implies exists|i: int| 0 <= i < order.len() && (#[trigger] order[i]).pid == pid by {
            assert(self.holders(path).contains_key(pid));
            let i = choose|i: int| 0 <= i < listed.len() && (#[trigger] listed[i]).pid == pid;
            assert(order[i].pid == pid);
        }
    }

    /// The single best guess at who is responsible for `path`, or `None`.
    ///
    /// "Best" is the holder doing the most IO overall, which is a guess: it
    /// has the file open and it is busy, but nothing says that the two facts
    /// are connected. A holder doing no measurable IO is still returned when
    /// it is the only one: an idle holder is a better answer than a blank
    /// column.
    pub fn likely_owner(&self, path: &FilePath) -> (r: Option<&ProcessTick>)
        requires
            self.wf(),
        ensures
            match r {
                Some(tick) => ranking(self.holders(path@)).len() > 0 && *tick == ranking(
                    self.holders(path@),
                )[0],
                None => ranking(self.holders(path@)).len() == 0,
            },
            r is None <==> self.holders(path@) == Map::<u32, ProcessTick>::empty(),
            r matches Some(tick) ==> {
                &&& self.holders(path@).contains_key(tick.pid)
                &&& forall|pid: u32| #[trigger]
                    self.holders(path@).contains_key(pid) && pid != tick.pid ==> busier(
                        *tick,
                        self.holders(path@)[pid],
                    )
            },
            r matches Some(tick) ==> forall|pid: u32| #[trigger]
                self.holders(path@).contains_key(pid) ==> {
                    let other = self.holders(path@)[pid];
                    let named = tick.read_bps.sum(tick.write_bps).rank();
                    let moved = other.read_bps.sum(other.write_bps).rank();
                    named > moved || named == moved && tick.pid <= pid
                },
    {
        let order: Vec<&ProcessTick> = self.owners_of(path);
        let ghost holders = self.holders(path@);
        if order.len() == 0 {
            assert(holders =~= Map::<u32, ProcessTick>::empty()) by {
                assert forall|pid: u32| !holders.contains_key(pid) by {
                    if holders.contains_key(pid) {
                        let i = choose|i: int|
                            0 <= i < ticks(order@).len() && (#[trigger] ticks(order@)[i]).pid
                                == pid;
                        assert(false);
                    }
                }
            }
            None
        } else {
            let first: &ProcessTick = order[0];
            proof {
                let listed = ticks(order@);
                assert(holders.contains_key(listed[0].pid));
                assert forall|pid: u32| #[trigger]
                    holders.contains_key(pid) && pid != first.pid implies busier(
                    *first,
                    holders[pid],
                ) by {
                    let i = choose|i: int| 0 <= i < listed.len() && (#[trigger] listed[i]).pid == pid;
                    assert(busier(listed[0], listed[i]));
                }
                assert(holders[first.pid] == *first);
                assert forall|pid: u32| #[trigger] holders.contains_key(pid) implies {
                    let other = holders[pid];
                    let named = first.read_bps.sum(first.write_bps).rank();
                    let moved = other.read_bps.sum(other.write_bps).rank();
                    named > moved || named == moved && first.pid <= pid
                } by {
                    if pid != first.pid {
                        assert(busier(*first, holders[pid]));
                        assert(holders[pid].pid == pid);
                    }
                }
            }
            Some(first)
        }
    }

    /// Busiest processes by total bytes per second, regardless of path. This
    /// is the reading that survives when the descriptor scan misses a
    /// short-lived writer. A process that moved no bytes is not among them.
    pub fn top(&self, n: usize) -> (r: Vec<ProcessTick>)
        requires
            self.wf(),
        ensures
            is_ranking(ranking(self.procs@), self.procs@),
            r@ == (if ranking(self.procs@).len() <= n {
                ranking(self.procs@)
            } else {
                ranking(self.procs@).take(n as int)
            }),
            r@.len() <= n,
            forall|i: int, j: int|
                0 <= i < j < r@.len() ==> {
                    let first = (#[trigger] r@[i]).read_bps.sum(r@[i].write_bps).rank();
                    let second = (#[trigger] r@[j]).read_bps.sum(r@[j].write_bps).rank();
                    first > second || first == second && r@[i].pid < r@[j].pid
                },
            forall|i: int|
                0 <= i < r@.len() ==> self.procs@.contains_key((#[trigger] r@[i]).pid)
                    && self.procs@[r@[i].pid] == r@[i],
            forall|pid: u32| #[trigger]
                self.procs@.contains_key(pid) ==> (exists|i: int|
                    0 <= i < r@.len() && (#[trigger] r@[i]).pid == pid) || r@.len() == n && forall|
                    i: int,
                |
                    0 <= i < n ==> {
                        let other = self.procs@[pid];
                        let first = (#[trigger] r@[i]).read_bps.sum(r@[i].write_bps).rank();
                        let second = other.read_bps.sum(other.write_bps).rank();
                        first > second || first == second && r@[i].pid < pid
                    },
    {
        broadcast use vstd::std_specs::hash::group_hash_axioms;

        let mut order: Vec<&ProcessTick> = Vec::new();
        let ghost mut found = Map::<u32, ProcessTick>::empty();
        assert(self.procs@.restrict(Set::<u32>::empty()) =~= found);
        for pid in it: self.procs.keys()
            invariant
                self.wf(),
                it.seq().unref().to_set() == self.procs@.dom(),
                it.seq().no_duplicates(),
                found == self.procs@.restrict(it.seq().unref().take(it.index()).to_set()),
                is_ranking(ticks(order@), found),
                it.index() == it.seq().len() ==> found == self.procs@,
        {
            proof {
                let keys = it.seq().unref();
                assert(keys.take(keys.len() as int) =~= keys);
                assert(self.procs@.restrict(self.procs@.dom()) =~= self.procs@);
                assert(keys.no_duplicates()) by {
                    assert forall|i: int, j: int|
                        0 <= i < keys.len() && 0 <= j < keys.len() && i != j implies keys[i]
                        != keys[j] by {
                        assert(it.seq()[i] != it.seq()[j]);
                    }
                }
                lemma_restrict_step(self.procs@, keys, it.index());
            }
            match self.procs.get(pid) {
                Some(tick) => {
                    insert_ranked(&mut order, tick, Ghost(found));
                    proof {
                        found = found.insert(*pid, *tick);
                    }
                },
                None => {},
            }
        }
        proof {
            lemma_ranking_is(ticks(order@), self.procs@);
        }
        let ghost listed = ticks(order@);
        let mut r: Vec<ProcessTick> = Vec::new();
        let mut i: usize = 0;
        while i < order.len() && i < n
            invariant
                i <= order.len(),
                i <= n,
                listed == ticks(order@),
                r@ == listed.take(i as int),
            decreases order.len() - i,
        {
            r.push(order[i].clone());
            i = i + 1;
            assert(r@ =~= listed.take(i as int));
        }
        assert(listed.take(listed.len() as int) =~= listed);
        proof {
            assert forall|k: int, l: int| 0 <= k < l < r@.len() implies {
                let first = (#[trigger] r@[k]).read_bps.sum(r@[k].write_bps).rank();
                let second = (#[trigger] r@[l]).read_bps.sum(r@[l].write_bps).rank();
                first > second || first == second && r@[k].pid < r@[l].pid
            } by {
                assert(busier(listed[k], listed[l]));
            }
            assert forall|pid: u32| #[trigger] self.procs@.contains_key(pid) implies (exists|k: int|
                0 <= k < r@.len() && (#[trigger] r@[k]).pid == pid) || r@.len() == n && forall|
                k: int,
            |
                0 <= k < n ==> {
                    let other = self.procs@[pid];
                    let first = (#[trigger] r@[k]).read_bps.sum(r@[k].write_bps).rank();
                    let second = other.read_bps.sum(other.write_bps).rank();
                    first > second || first == second && r@[k].pid < pid
                } by {
                let at = choose|k: int| 0 <= k < listed.len() && (#[trigger] listed[k]).pid == pid;
                if at < r@.len() {
                    assert(r@[at].pid == pid);
                } else {
                    assert forall|k: int| 0 <= k < n implies {
                        let other = self.procs@[pid];
                        let first = (#[trigger] r@[k]).read_bps.sum(r@[k].write_bps).rank();
                        let second = other.read_bps.sum(other.write_bps).rank();
                        first > second || first == second && r@[k].pid < pid
                    } by {
                        assert(busier(listed[k], listed[at]));
                    }
                }
            }
        }
        r
    }

    /// How much of the process table was readable.
    pub fn coverage(&self) -> (r: Coverage)
        ensures
            r == self.coverage,
    {
        self.coverage
    }
}

impl Default for ProcessCollector {
    fn default() -> (r: ProcessCollector)
        ensures
            r.wf(),
            r.procs@ == Map::<u32, ProcessTick>::empty(),
            r.idle@ == Map::<u32, ProcessTick>::empty(),
            r.owners@ == Map::<PathKey, Seq<u32>>::empty(),
            r.coverage == (Coverage { visible: 0, hidden: 0 }),
            r.last_rates is None,
            r.last_scan is None,
    {
        ProcessCollector::new()
    }
}

/// A sampled process either moved bytes or is idle.
pub proof fn lemma_sampled(samples: Seq<UsageSample>, elapsed: Double, i: int)
    requires
        0 <= i < samples.len(),
    ensures
        rates_over(samples, elapsed).contains_key(samples[i].pid) || idle_in(samples).contains_key(
            samples[i].pid,
        ),
    decreases samples.len(),
{
    if i < samples.len() - 1 {
        assert(samples.drop_last()[i] == samples[i]);
        lemma_sampled(samples.drop_last(), elapsed, i);
    }
}

/// The process of sample `i` is in no other sample.
pub open spec fn sampled_once(samples: Seq<UsageSample>, i: int) -> bool {
    forall|k: int| 0 <= k < samples.len() && k != i ==> (#[trigger] samples[k]).pid != samples[i].pid
}

/// What becomes of a process that is in one sample only.
pub proof fn lemma_sampled_once(samples: Seq<UsageSample>, elapsed: Double, i: int)
    requires
        0 <= i < samples.len(),
        sampled_once(samples, i),
    ensures
        ({
            let sample = samples[i];
            let idle = sample.read_bytes == 0 && sample.written_bytes == 0;
            &&& rates_over(samples, elapsed).contains_key(sample.pid) == !idle
            &&& idle_in(samples).contains_key(sample.pid) == idle
            &&& !idle ==> rates_over(samples, elapsed)[sample.pid] == sample.tick(elapsed)
            &&& idle ==> idle_in(samples)[sample.pid] == sample.idle_tick()
        }),
    decreases samples.len(),
{
    let init = samples.drop_last();
    assert(forall|k: int| 0 <= k < init.len() ==> init[k] == samples[k]);
    if i < init.len() {
        lemma_sampled_once(init, elapsed, i);
        assert(samples[samples.len() - 1].pid != samples[i].pid);
    } else {
        lemma_unsampled(init, elapsed, samples[i].pid);
    }
}

proof fn lemma_unsampled(samples: Seq<UsageSample>, elapsed: Double, pid: u32)
    requires
        forall|k: int| 0 <= k < samples.len() ==> (#[trigger] samples[k]).pid != pid,
    ensures
        !rates_over(samples, elapsed).contains_key(pid),
        !idle_in(samples).contains_key(pid),
    decreases samples.len(),
{
    if samples.len() > 0 {
        let init = samples.drop_last();
        assert(forall|k: int| 0 <= k < init.len() ==> init[k] == samples[k]);
        assert(samples[samples.len() - 1] == samples.last());
        lemma_unsampled(init, elapsed, pid);
    }
}

/// A process that moved nothing has a total rate of zero.
pub proof fn lemma_idle_total(sample: UsageSample)
    ensures
        sample.idle_tick().total() == (Double { bits: 0 }),
{
}

/// The time since the previous reading, in seconds.
pub open spec fn elapsed_since(last: Option<u64>, now: u64) -> Double {
    match last {
        None => Double { bits: 0 },
        Some(then) => in_seconds(since(then, now)),
    }
}

/// A time in seconds is a number, and at least a second is a positive one.
pub proof fn lemma_seconds(nanos: u64)
    ensures
        !in_seconds(nanos).nan(),
        nanos >= SECOND ==> in_seconds(nanos).positive(),
{
    Double::lemma_of_whole_finite((nanos / SECOND) as nat);
    Double::lemma_of_whole_finite((nanos % SECOND) as nat);
    Double::lemma_of_whole(SECOND as nat);
    vstd::arithmetic::power2::lemma_pow2_pos(crate::binary64::UNIT_EXPONENT as nat);
    let u = vstd::arithmetic::power2::pow2(crate::binary64::UNIT_EXPONENT as nat);
    assert(SECOND * u > 0) by (nonlinear_arith)
        requires
            u > 0,
    ;
    if nanos >= SECOND {
        let whole = Double::of_whole((nanos / SECOND) as nat);
        let rest = Double::of_whole((nanos % SECOND) as nat).ratio(
            Double::of_whole(SECOND as nat),
        );
        assert(whole.units() > 0) by {
            let n = (nanos / SECOND) as nat;
            assert(n * u > 0) by (nonlinear_arith)
                requires
                    n >= 1,
                    u > 0,
            ;
            lemma_nearest_positive(n * u);
        }
        if !rest.infinite() {
            lemma_nearest_positive((whole.rank() + rest.rank()) as nat);
        } else {
            lemma_units_monotone(0, rest.magnitude());
        }
    }
}

/// One more key, looked up among `procs`.
proof fn lemma_restrict_step(procs: Map<u32, ProcessTick>, keys: Seq<u32>, i: int)
    requires
        keys.no_duplicates(),
        0 <= i < keys.len(),
    ensures
        !procs.restrict(keys.take(i).to_set()).contains_key(keys[i]),
        procs.restrict(keys.take(i + 1).to_set()) == (if procs.contains_key(keys[i]) {
            procs.restrict(keys.take(i).to_set()).insert(keys[i], procs[keys[i]])
        } else {
            procs.restrict(keys.take(i).to_set())
        }),
{
    let earlier = keys.take(i);
    let later = keys.take(i + 1);
    let key = keys[i];
    assert(later[i] == key);
    assert(!earlier.contains(key)) by {
        if earlier.contains(key) {
            let j = choose|j: int| 0 <= j < earlier.len() && earlier[j] == key;
            assert(keys[j] == keys[i]);
        }
    }
    assert forall|p: u32| later.contains(p) == (earlier.contains(p) || p == key) by {
        if earlier.contains(p) {
            let j = choose|j: int| 0 <= j < earlier.len() && earlier[j] == p;
            assert(later[j] == p);
        }
        if later.contains(p) && p != key {
            let j = choose|j: int| 0 <= j < later.len() && later[j] == p;
            assert(earlier[j] == p);
        }
    }
    assert(procs.restrict(later.to_set()) =~= (if procs.contains_key(key) {
        procs.restrict(earlier.to_set()).insert(key, procs[key])
    } else {
        procs.restrict(earlier.to_set())
    }));
}

} // verus!
