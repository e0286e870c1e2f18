use diskwatch::collect::{darwin, linux, windows};
use diskwatch::collect::darwin::{FdReply, FdTable};
use diskwatch::collect::windows::{DiskKind, DiskReading, WindowsDevice, WindowsKind};
use diskwatch::paths::FilePath;

fn bytes(text: &str) -> Vec<u8> {
    text.as_bytes().to_vec()
}

fn chars(text: &[u8]) -> Vec<i8> {
    text.iter().map(|b| *b as i8).collect()
}

fn spelled(paths: &[FilePath]) -> Vec<String> {
    paths.iter().map(|p| p.display()).collect()
}

#[test]
fn pids_are_read_as_the_standard_parser_reads_them() {
    for name in [
        "1", "406494", "0", "007", "+12", "4294967295", "4294967296", "99999999999999999999", "", "+", "++1", "-1",
        "1a", "self", " 1", "1 ", "١", "+0",
    ] {
        assert_eq!(linux::parse_pid(&bytes(name)), name.parse::<u32>().ok(), "{name:?}");
    }
    assert_eq!(linux::parse_pid(&vec![b'1', 0xff]), None);
    let names = vec![bytes("1"), bytes("cpuinfo"), bytes("42"), bytes("self")];
    assert_eq!(linux::list_pids(&names), vec![1, 42]);
}

#[test]
fn the_deletion_marker_is_stripped_once() {
    for (target, path) in [
        ("/tmp/x (deleted)", "/tmp/x"),
        ("/tmp/x (deleted) (deleted)", "/tmp/x (deleted)"),
        ("/tmp/x(deleted)", "/tmp/x(deleted)"),
        (" (deleted)", ""),
        ("(deleted)", "(deleted)"),
    ] {
        assert_eq!(linux::strip_deleted(&FilePath::new(target)).bytes, bytes(path));
    }
    let mut odd = vec![b'/', 0xff];
    odd.extend_from_slice(b" (deleted)");
    assert_eq!(linux::strip_deleted(&FilePath::from_bytes(odd.clone())).bytes, odd);
}

#[test]
fn descriptor_links_become_paths_worth_indexing() {
    let targets = vec![
        FilePath::new("/dev/pts/3"),
        FilePath::new("/home/me/notes (deleted)"),
        FilePath::new("socket:[2235587]"),
        FilePath::new("/var/log/syslog"),
    ];
    let held = linux::open_files(&Some(targets)).unwrap();
    assert_eq!(spelled(&held), vec!["/home/me/notes", "/var/log/syslog"]);
    assert!(linux::open_files(&None).is_none());
    assert!(linux::open_files(&Some(vec![])).unwrap().is_empty());
}

#[test]
fn a_pid_table_is_oversized_and_cut_to_the_second_answer() {
    assert_eq!(darwin::pid_capacity(-1), None);
    assert_eq!(darwin::pid_capacity(0), None);
    assert_eq!(darwin::pid_capacity(40), Some(74));
    assert_eq!(darwin::pid_capacity(i32::MAX), Some(536_870_911 + 64));
    let table = vec![5, 0, 7, -3, 9, 11];
    assert_eq!(darwin::list_pids(&table, 20), vec![5, 7, 9]);
    assert_eq!(darwin::list_pids(&table, 400), vec![5, 7, 9, 11]);
    assert!(darwin::list_pids(&table, 0).is_empty());
    assert!(darwin::list_pids(&table, -1).is_empty());
}

#[test]
fn an_empty_descriptor_table_is_no_denial() {
    assert_eq!(darwin::fd_table(-1, 8), FdTable::Denied);
    assert_eq!(darwin::fd_table(0, 8), FdTable::Empty);
    assert_eq!(darwin::fd_table(80, 8), FdTable::Ask(42));
    assert_eq!(darwin::fd_count(-1, 8), None);
    assert_eq!(darwin::fd_count(0, 8), Some(0));
    assert_eq!(darwin::fd_count(79, 8), Some(9));
    assert!(darwin::has_path(1));
    assert!(!darwin::has_path(2));
}

#[test]
fn a_path_buffer_ends_at_the_first_nul() {
    let path = darwin::vnode_path(&vec![chars(b"/Us"), chars(b"ers"), chars(b"/\xc3\xa9\0x"), chars(b"yz")]).unwrap();
    assert_eq!(path.bytes, bytes("/Users/é"));
    assert!(darwin::vnode_path(&vec![chars(b"\0abc")]).is_none());
    assert!(darwin::vnode_path(&vec![]).is_none());
    assert_eq!(darwin::vnode_path(&vec![chars(b"/full")]).unwrap().bytes, bytes("/full"));
}

#[test]
fn replies_without_a_path_are_passed_over() {
    let reply = |fd_type: u32, answered: i32, path: &[u8]| FdReply { fd_type, answered, path: vec![chars(path)] };
    let replies = vec![
        reply(1, 100, b"/a\0"),
        reply(2, 100, b"/socket\0"),
        reply(1, 99, b"/short\0"),
        reply(1, 100, b"\0"),
        reply(1, 100, b"/dev/null\0"),
        reply(1, 120, b"/b\0"),
    ];
    assert_eq!(spelled(&darwin::open_files(&replies, 100)), vec!["/a", "/b"]);
}

fn disk(mount: &str, total: u64, available: u64, removable: bool, kind: DiskKind) -> DiskReading {
    DiskReading { mount: mount.to_string(), total, available, removable, kind }
}

#[test]
fn drives_are_named_and_classified() {
    let devices = windows::collect(&vec![
        disk("C:\\", 1000, 400, false, DiskKind::Ssd),
        disk("D:", 10, 11, false, DiskKind::Hdd),
        disk("E:\\/\\", 7, 7, true, DiskKind::Ssd),
        disk("//", 0, 0, false, DiskKind::Other),
    ]);
    let seen: Vec<(&str, WindowsKind, &str, u64, u64, bool)> = devices
        .iter()
        .map(|d| (d.name.as_str(), d.kind, d.model.as_str(), d.size_bytes, d.used_bytes, d.removable))
        .collect();
    assert_eq!(
        seen,
        vec![
            ("C:", WindowsKind::Ssd, "Local Disk (C:)", 1000, 600, false),
            ("D:", WindowsKind::Hdd, "Local Disk (D:)", 10, 0, false),
            ("E:", WindowsKind::UsbMassStorage, "Removable Drive (E:)", 7, 0, true),
            ("", WindowsKind::Unknown, "Local Disk ()", 0, 0, false),
        ]
    );
    for d in &devices {
        assert!(d.bus.is_empty() && d.firmware.is_none() && d.serial.is_none() && d.smart_ok.is_none());
    }
}

#[test]
fn a_default_device_is_blank_and_a_clone_is_the_same() {
    let blank = WindowsDevice::default();
    assert_eq!(blank.kind, WindowsKind::Unknown);
    assert!(blank.name.is_empty() && blank.model.is_empty() && blank.size_bytes == 0);
    let device = WindowsDevice { serial: Some("S1".to_string()), smart_ok: Some(true), ..windows::describe(&disk("F:\\", 5, 1, true, DiskKind::Hdd)) };
    let copy = device.clone();
    assert_eq!(copy.name, "F:");
    assert_eq!(copy.serial.as_deref(), Some("S1"));
    assert_eq!(copy.smart_ok, Some(true));
    assert_eq!((copy.size_bytes, copy.used_bytes, copy.kind), (5, 4, WindowsKind::UsbMassStorage));
}
