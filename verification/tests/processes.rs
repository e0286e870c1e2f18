use diskwatch::binary64::Double;
use diskwatch::collect::owners::{OwnerIndex, MAX_OWNED_PATHS};
use diskwatch::collect::processes::{
    existing_tables, is_indexable, scan_open_files, Coverage, ListedProcess, Listing, ProcessCollector, ProcessFiles, ProcessTick, UsageSample, RATE_INTERVAL,
    SCAN_INTERVAL, SECOND,
};
use diskwatch::paths::FilePath;

fn rate(x: f64) -> Double {
    Double { bits: x.to_bits() }
}

fn tick(pid: u32, name: &str, read: f64, write: f64) -> ProcessTick {
    ProcessTick { pid, name: name.to_string(), read_bps: rate(read), write_bps: rate(write) }
}

fn collector_with(procs: Vec<ProcessTick>, owners: &[(&str, Vec<u32>)]) -> ProcessCollector {
    let mut c = ProcessCollector::new();
    for p in procs {
        c.procs.insert(p.pid, p);
    }
    let mut index = OwnerIndex::new();
    for (path, pids) in owners {
        for pid in pids {
            index.note(&FilePath::new(path), *pid);
        }
    }
    c.owners = index;
    c
}

fn sample(pid: u32, name: &str, read_bytes: u64, written_bytes: u64) -> UsageSample {
    UsageSample { pid, name: name.to_string(), read_bytes, written_bytes }
}

fn table(pid: u32, paths: &[&str]) -> ProcessFiles {
    ProcessFiles { pid, files: Some(paths.iter().map(|p| FilePath::new(p)).collect()) }
}

/// The point of crossing the two readings: of everything holding a file open,
/// name the one actually moving bytes.
#[test]
fn the_busiest_holder_wins_the_owner_column() {
    let c = collector_with(
        vec![
            tick(1, "tail", 0.0, 0.0),
            tick(2, "postgres", 0.0, 9_000_000.0),
            tick(3, "grep", 200.0, 0.0),
        ],
        &[("/var/lib/db/wal", vec![1, 2, 3])],
    );
    let owner = c.likely_owner(&FilePath::new("/var/lib/db/wal")).unwrap();
    assert_eq!(owner.name, "postgres");
    assert_eq!(c.owners_of(&FilePath::new("/var/lib/db/wal")).len(), 3);
}

/// An idle holder is still the answer when it is the only one.
#[test]
fn a_holder_doing_no_io_is_better_than_no_owner_at_all() {
    let c = collector_with(vec![tick(1, "tail", 0.0, 0.0)], &[("/var/log/syslog", vec![1])]);
    assert_eq!(c.likely_owner(&FilePath::new("/var/log/syslog")).unwrap().name, "tail");
}

/// The scan can name a pid that the rates have already dropped because the
/// process exited. That must read as "no owner".
#[test]
fn a_holder_that_has_since_exited_is_dropped_not_reported() {
    let c = collector_with(vec![tick(1, "tail", 0.0, 0.0)], &[("/tmp/gone", vec![99])]);
    assert!(c.likely_owner(&FilePath::new("/tmp/gone")).is_none());
    assert!(c.owners_of(&FilePath::new("/tmp/gone")).is_empty());
}

#[test]
fn an_unwatched_path_has_no_owner() {
    let c = collector_with(vec![tick(1, "tail", 0.0, 0.0)], &[]);
    assert!(c.likely_owner(&FilePath::new("/nothing/here")).is_none());
}

/// Sorting by read+write, not by writes.
#[test]
fn owners_rank_on_reads_as_well_as_writes() {
    let c = collector_with(
        vec![tick(1, "rsync", 50_000_000.0, 0.0), tick(2, "vim", 0.0, 4096.0)],
        &[("/srv/backup.tar", vec![1, 2])],
    );
    assert_eq!(c.likely_owner(&FilePath::new("/srv/backup.tar")).unwrap().name, "rsync");
}

/// `top()` must not be restricted to processes that hold an indexed path.
#[test]
fn top_writers_are_reported_without_any_path_attribution() {
    let c = collector_with(vec![tick(1, "dd", 0.0, 800_000_000.0), tick(2, "vim", 0.0, 4096.0)], &[]);
    let top = c.top(2);
    assert_eq!(top[0].name, "dd");
    assert_eq!(top[1].name, "vim");
}

#[test]
fn a_label_never_exceeds_the_column_it_was_given() {
    let long = tick(1234, "systemd-journald-with-a-silly-name", 0.0, 0.0);
    let short = tick(9, "vim", 0.0, 0.0);
    for w in 1..40usize {
        assert!(long.label(w).chars().count() <= w, "long at {w}");
        assert!(short.label(w).chars().count() <= w, "short at {w}");
    }
    // The pid is the half worth keeping, so it survives while there is room
    // for it at all.
    assert!(long.label(22).contains("(1234)"));
    assert_eq!(short.label(20), "vim (9)");
}

#[test]
fn coverage_counts_what_we_could_not_read() {
    let c = Coverage { visible: 125, hidden: 431 };
    assert_eq!(c.total(), 556);
    assert!(c.is_partial());
    assert!(!Coverage { visible: 10, hidden: 0 }.is_partial());
}

/// Paths with no bearing on Hot Files must stay out of the index.
#[test]
fn pseudo_filesystems_are_not_indexed() {
    assert!(is_indexable(&FilePath::new("/home/matt/src/main.rs")));
    assert!(is_indexable(&FilePath::new("/var/log/syslog")));
    assert!(!is_indexable(&FilePath::new("/proc/406494/fd")));
    assert!(!is_indexable(&FilePath::new("/sys/block/nvme0n1/stat")));
    assert!(!is_indexable(&FilePath::new("/dev/null")));
    // Events carry absolute paths, so a relative one (a socket or pipe link
    // target) can never match and is not worth indexing.
    assert!(!is_indexable(&FilePath::new("socket:[2235587]")));
    assert!(!is_indexable(&FilePath::new("anon_inode:[eventpoll]")));
}

/// The first refresh has no previous sample to difference against.
#[test]
fn the_first_refresh_publishes_no_rates() {
    let mut c = ProcessCollector::new();
    c.refresh_rates(&vec![sample(1, "firefox", 0, 4_000_000_000)], rate(0.0));
    assert!(c.procs.is_empty());
}

/// The two intervals are what keep this affordable.
#[test]
fn the_fd_scan_runs_less_often_than_the_rate_refresh() {
    assert!(SCAN_INTERVAL > RATE_INTERVAL);
}

#[test]
fn labels_are_clipped_around_the_pid() {
    let t = tick(1234, "systemd-journald", 0.0, 0.0);
    assert_eq!(t.label(23), "systemd-journald (1234)");
    assert_eq!(t.label(22), "systemd-journa\u{2026} (1234)");
    assert_eq!(t.label(9), "s\u{2026} (1234)");
    assert_eq!(t.label(8), "1234");
    assert_eq!(t.label(3), "123");
    assert_eq!(t.label(0), "");
    for w in 4..40usize {
        assert!(t.label(w).contains("1234"), "{w}");
    }
    // Wide characters count once each.
    assert_eq!(tick(7, "日本語のプロセス", 0.0, 0.0).label(8), "日本語\u{2026} (7)");
}

#[test]
fn totals_are_double_sums() {
    for (a, b) in [(0.1, 0.2), (1e16, 1.0), (4096.0, 0.5), (0.0, 0.0)] {
        assert_eq!(tick(1, "x", a, b).total_bps().bits, (a + b).to_bits());
    }
}

#[test]
fn owners_come_busiest_first_and_ties_by_pid() {
    let c = collector_with(
        vec![
            tick(5, "e", 0.0, 10.0),
            tick(4, "d", 10.0, 0.0),
            tick(3, "c", 5.0, 5.5),
            tick(2, "b", 0.0, 0.0),
            tick(9, "z", 1e9, 0.0),
        ],
        &[("/data/x", vec![2, 5, 3, 4, 77])],
    );
    let pids: Vec<u32> = c.owners_of(&FilePath::new("/data/x")).iter().map(|t| t.pid).collect();
    assert_eq!(pids, vec![3, 4, 5, 2]);
    let top: Vec<u32> = c.top(3).iter().map(|t| t.pid).collect();
    assert_eq!(top, vec![9, 3, 4]);
    assert_eq!(c.top(99).len(), 5);
    assert!(c.top(0).is_empty());
}

#[test]
fn a_path_is_found_under_another_spelling() {
    let c = collector_with(vec![tick(1, "tail", 1.0, 0.0)], &[("/var/log/syslog", vec![1])]);
    assert!(c.likely_owner(&FilePath::new("/var//log/./syslog/")).is_some());
    assert!(c.likely_owner(&FilePath::new("var/log/syslog")).is_none());
    assert!(c.likely_owner(&FilePath::new("/var/log/../log/syslog")).is_none());
}

#[test]
fn rates_are_bytes_over_measured_seconds() {
    let mut c = ProcessCollector::new();
    let samples = vec![sample(1, "dd", 0, 3_000_000), sample(2, "idle", 0, 0), sample(3, "cat", 7, 1)];
    for elapsed in [1.0, 1.5, 0.3, 7.25] {
        c.refresh_rates(&samples, rate(elapsed));
        assert_eq!(c.procs.len(), 2);
        assert_eq!(c.idle.len(), 1);
        assert_eq!(c.idle[&2].name, "idle");
        assert_eq!(c.idle[&2].total_bps().bits, 0f64.to_bits());
        assert_eq!(c.top(9).len(), 2);
        assert_eq!(c.procs[&1].write_bps.bits, (3_000_000f64 / elapsed).to_bits());
        assert_eq!(c.procs[&1].read_bps.bits, (0f64 / elapsed).to_bits());
        assert_eq!(c.procs[&3].read_bps.bits, (7f64 / elapsed).to_bits());
        assert_eq!(c.procs[&3].name, "cat");
    }
    c.refresh_rates(&samples, rate(-1.0));
    assert!(c.procs.is_empty() && c.idle.is_empty());
}

/// A holder that moved nothing is still named when it is the only one, and
/// comes behind those that did when it is not.
#[test]
fn an_idle_holder_is_named_after_two_readings() {
    let mut c = ProcessCollector::new();
    let samples = vec![sample(7, "tail", 0, 0), sample(8, "dd", 0, 4096), sample(9, "less", 0, 0)];
    let tables = vec![table(7, &["/srv/x", "/srv/y"]), table(8, &["/srv/y"]), table(9, &["/srv/y"])];
    c.refresh(0, &samples, &tables);
    assert!(c.likely_owner(&FilePath::new("/srv/x")).is_none());
    c.refresh(2 * SECOND, &samples, &tables);
    let owner = c.likely_owner(&FilePath::new("/srv/x")).unwrap();
    assert_eq!((owner.pid, owner.name.as_str()), (7, "tail"));
    assert_eq!(owner.total_bps().bits, 0f64.to_bits());
    let pids: Vec<u32> = c.owners_of(&FilePath::new("/srv/y")).iter().map(|t| t.pid).collect();
    assert_eq!(pids, vec![8, 7, 9]);
    let top: Vec<u32> = c.top(9).iter().map(|t| t.pid).collect();
    assert_eq!(top, vec![8]);
    // A process that the next reading no longer finds is dropped.
    c.refresh(3 * SECOND, &vec![sample(9, "less", 0, 0)], &vec![]);
    assert!(c.likely_owner(&FilePath::new("/srv/x")).is_none());
}

#[test]
fn a_process_that_has_gone_is_neither_visible_nor_hidden() {
    let listed = |pid: u32, listing: Listing| ListedProcess { pid, listing };
    let tables = existing_tables(vec![
        listed(5, Listing::Open(vec![FilePath::new("/a")])),
        listed(7, Listing::Gone),
        listed(8, Listing::Denied),
        listed(9, Listing::Open(vec![])),
    ]);
    let pids: Vec<u32> = tables.iter().map(|t| t.pid).collect();
    assert_eq!(pids, vec![5, 8, 9]);
    assert!(tables[1].files.is_none());
    let (owners, coverage) = scan_open_files(&tables);
    assert_eq!(coverage, Coverage { visible: 2, hidden: 1 });
    assert_eq!(*owners.get(&FilePath::new("/a")).unwrap(), vec![5]);
    let (_, none) = scan_open_files(&existing_tables(vec![listed(7, Listing::Gone)]));
    assert_eq!(none, Coverage { visible: 0, hidden: 0 });
    assert!(matches!(Listing::of(None), Listing::Denied));
    assert!(matches!(Listing::of(Some(vec![])), Listing::Open(_)));
}

#[test]
fn a_scan_inverts_the_descriptor_tables() {
    let tables = vec![
        table(10, &["/a", "/b", "/a"]),
        ProcessFiles { pid: 11, files: None },
        table(12, &["/b", "/a/"]),
        table(13, &[]),
    ];
    let (owners, coverage) = scan_open_files(&tables);
    assert_eq!(coverage.visible, 3);
    assert_eq!(coverage.hidden, 1);
    assert_eq!(owners.len(), 2);
    assert_eq!(*owners.get(&FilePath::new("/a")).unwrap(), vec![10, 12]);
    assert_eq!(*owners.get(&FilePath::new("/b")).unwrap(), vec![10, 12]);
    assert!(owners.get(&FilePath::new("/c")).is_none());
}

#[test]
fn a_full_index_takes_no_further_path_but_further_owners() {
    let mut index = OwnerIndex::new();
    index.note(&FilePath::new("/first"), 1);
    for i in 1..MAX_OWNED_PATHS {
        index.note(&FilePath::new(&format!("/tmp/{}", i)), 1);
    }
    assert_eq!(index.len(), MAX_OWNED_PATHS);
    index.note(&FilePath::new("/one/more"), 2);
    assert_eq!(index.len(), MAX_OWNED_PATHS);
    assert!(index.get(&FilePath::new("/one/more")).is_none());
    index.note(&FilePath::new("/first"), 2);
    index.note(&FilePath::new("/first"), 2);
    assert_eq!(*index.get(&FilePath::new("/first")).unwrap(), vec![1, 2]);
}

#[test]
fn refreshing_every_frame_reads_no_more_than_the_intervals_say() {
    let mut c = ProcessCollector::new();
    let samples = vec![sample(1, "dd", 1_000, 2_000)];
    let tables = vec![table(1, &["/data/out"]), ProcessFiles { pid: 2, files: None }];
    assert!(c.rates_due(5 * SECOND) && c.scan_due(5 * SECOND));
    c.refresh(5 * SECOND, &samples, &tables);
    assert!(c.procs.is_empty());
    assert_eq!(c.coverage(), Coverage { visible: 1, hidden: 1 });
    assert!(c.owners_of(&FilePath::new("/data/out")).is_empty());
    assert!(!c.rates_due(5 * SECOND + 999_999_999));
    c.refresh(5 * SECOND + 500_000_000, &samples, &vec![]);
    assert!(c.procs.is_empty());
    assert_eq!(c.coverage(), Coverage { visible: 1, hidden: 1 });
    // One and a half seconds later the rates are due, the scan is not.
    let now = 6 * SECOND + 500_000_000;
    assert!(c.rates_due(now) && !c.scan_due(now));
    c.refresh(now, &samples, &vec![]);
    assert_eq!(c.procs[&1].write_bps.bits, (2_000f64 / 1.5).to_bits());
    assert_eq!(c.likely_owner(&FilePath::new("/data/out")).unwrap().name, "dd");
    // A clock that stepped back is no time at all.
    assert!(!c.rates_due(3 * SECOND));
    // Two seconds after the first scan it is due again.
    c.refresh(7 * SECOND, &samples, &vec![]);
    assert_eq!(c.coverage(), Coverage { visible: 0, hidden: 0 });
    assert!(c.likely_owner(&FilePath::new("/data/out")).is_none());
}

#[test]
fn elapsed_seconds_are_those_of_a_duration() {
    for nanos in [1_000_000_000u64, 1_000_000_001, 1_234_567_891, 3_599_999_999_999, 86_400_123_456_789] {
        let mut c = ProcessCollector::new();
        c.refresh(0, &vec![], &vec![]);
        c.refresh(nanos, &vec![sample(1, "x", 12_345_678_901, 1)], &vec![]);
        let secs = std::time::Duration::from_nanos(nanos).as_secs_f64();
        assert_eq!(c.procs[&1].read_bps.bits, (12_345_678_901u64 as f64 / secs).to_bits());
    }
}

#[test]
fn a_default_collector_has_read_nothing() {
    let c = ProcessCollector::default();
    assert!(c.procs.is_empty());
    assert_eq!(c.owners.len(), 0);
    assert_eq!(c.coverage(), Coverage::default());
    assert!(c.rates_due(0) && c.scan_due(0));
}

#[test]
fn names_that_are_no_text_are_indexed() {
    assert!(is_indexable(&FilePath::from_bytes(vec![b'/', b'p', b'r', b'o', b'c', b'/', 0xff])));
    assert!(is_indexable(&FilePath::from_bytes(vec![0xc3])));
    assert!(!is_indexable(&FilePath::new("")));
    assert!(is_indexable(&FilePath::new("/proc")));
    assert!(is_indexable(&FilePath::new("/système")));
}
