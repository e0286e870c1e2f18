//! Windows storage device enumeration.
//!
//! Logical drives, with their total and used bytes, classified into USB
//! removable and internal storage. What an unprivileged process cannot read
//! of a drive is left blank.
use vstd::prelude::*;

verus! {

/// What kind of disk a drive says it is.
#[derive(Debug, Clone, Copy, PartialEq, Eq, Structural)]
pub enum DiskKind {
    Ssd,
    Hdd,
    Other,
}

/// One logical drive, as the system lists it.
#[derive(Debug)]
pub struct DiskReading {
    pub mount: String,
    pub total: u64,
    pub available: u64,
    pub removable: bool,
    pub kind: DiskKind,
}

/// Hardware drive category on Windows.
#[derive(Debug, Clone, Copy, PartialEq, Eq, Structural)]
pub enum WindowsKind {
    Ssd,
    Hdd,
    UsbMassStorage,
    Unknown,
}

impl Default for WindowsKind {
    fn default() -> (r: WindowsKind)
        ensures
            r == WindowsKind::Unknown,
    {
        WindowsKind::Unknown
    }
}

/// Representation of a storage device or volume discovered on Windows.
#[derive(Debug)]
pub struct WindowsDevice {
    pub name: String,
    pub kind: WindowsKind,
    pub model: String,
    pub bus: String,
    pub firmware: Option<String>,
    pub serial: Option<String>,
    pub size_bytes: u64,
    pub used_bytes: u64,
    pub removable: bool,
    pub smart_ok: Option<bool>,
}

impl Default for WindowsDevice {
    fn default() -> (r: WindowsDevice)
        ensures
            r.name@ == ""@,
            r.kind == WindowsKind::Unknown,
            r.model@ == ""@,
            r.bus@ == ""@,
            r.firmware is None,
            r.serial is None,
            r.size_bytes == 0,
            r.used_bytes == 0,
            !r.removable,
            r.smart_ok is None,
    {
        WindowsDevice {
            name: "".to_owned(),
            kind: WindowsKind::Unknown,
            model: "".to_owned(),
            bus: "".to_owned(),
            firmware: None,
            serial: None,
            size_bytes: 0,
            used_bytes: 0,
            removable: false,
            smart_ok: None,
        }
    }
}

impl Clone for WindowsDevice {
    fn clone(&self) -> (r: WindowsDevice)
        ensures
            r == *self,
    {
        WindowsDevice {
            name: self.name.clone(),
            kind: self.kind,
            model: self.model.clone(),
            bus: self.bus.clone(),
            firmware: match &self.firmware {
                Some(text) => Some(text.clone()),
                None => None,
            },
            serial: match &self.serial {
                Some(text) => Some(text.clone()),
                None => None,
            },
            size_bytes: self.size_bytes,
            used_bytes: self.used_bytes,
            removable: self.removable,
            smart_ok: self.smart_ok,
        }
    }
}

/// A character that separates names in a Windows path.
pub open spec fn separator(c: char) -> bool {
    c == '\\' || c == '/'
}

/// A mount point without its trailing separators: `C:` from `C:\`.
pub open spec fn drive_name(mount: Seq<char>) -> Seq<char>
    decreases mount.len(),
{
    if mount.len() > 0 && separator(mount.last()) {
        drive_name(mount.drop_last())
    } else {
        mount
    }
}

/// The category of a drive.
pub open spec fn category(disk: DiskReading) -> WindowsKind {
    if disk.removable {
        WindowsKind::UsbMassStorage
    } else {
        match disk.kind {
            DiskKind::Ssd => WindowsKind::Ssd,
            DiskKind::Hdd => WindowsKind::Hdd,
            DiskKind::Other => WindowsKind::Unknown,
        }
    }
}

/// `device` says of `disk` what there is to say.
pub open spec fn describes(device: WindowsDevice, disk: DiskReading) -> bool {
    &&& device.name@ == drive_name(disk.mount@)
    &&& device.kind == category(disk)
    &&& device.model@ == (if disk.removable {
        "Removable Drive ("@
    } else {
        "Local Disk ("@
    }) + drive_name(disk.mount@) + ")"@
    &&& device.bus@ == ""@
    &&& device.firmware is None
    &&& device.serial is None
    &&& device.size_bytes == disk.total
    &&& device.used_bytes == (if disk.available <= disk.total {
        disk.total - disk.available
    } else {
        0
    })
    &&& device.removable == disk.removable
    &&& device.smart_ok is None
}

/// A mount point without its trailing separators.
fn trim_separators(mount: &str) -> (r: String)
    ensures
        r@ == drive_name(mount@),
{
    let mut n: usize = mount.unicode_len();
    assert(mount@.take(n as int) =~= mount@);
    while n > 0 && (mount.get_char(n - 1) == '\\' || mount.get_char(n - 1) == '/')
        invariant
            n <= mount@.len(),
            drive_name(mount@.take(n as int)) == drive_name(mount@),
        decreases n,
    {
        assert(mount@.take(n as int).drop_last() =~= mount@.take(n - 1));
        n = n - 1;
    }
    let r: String = mount.substring_char(0, n).to_owned();
    assert(r@ =~= mount@.take(n as int));
    r
}

/// Describes one drive.
pub fn describe(disk: &DiskReading) -> (r: WindowsDevice)
    ensures
        describes(r, *disk),
{
    let name: String = trim_separators(disk.mount.as_str());
    let kind: WindowsKind = if disk.removable {
        WindowsKind::UsbMassStorage
    } else {
        match disk.kind {
            DiskKind::Ssd => WindowsKind::Ssd,
            DiskKind::Hdd => WindowsKind::Hdd,
            DiskKind::Other => WindowsKind::Unknown,
        }
    };
    let lead: &str = if disk.removable {
        "Removable Drive ("
    } else {
        "Local Disk ("
    };
    let model: String = lead.to_owned().concat(name.as_str()).concat(")");
    WindowsDevice {
        name,
        kind,
        model,
        bus: "".to_owned(),
        firmware: None,
        serial: None,
        size_bytes: disk.total,
        used_bytes: if disk.available <= disk.total {
            disk.total - disk.available
        } else {
            0
        },
        removable: disk.removable,
        smart_ok: None,
    }
}

/// The storage devices behind the attached volumes, in their order.
pub fn collect(disks: &Vec<DiskReading>) -> (r: Vec<WindowsDevice>)
    ensures
        r@.len() == disks@.len(),
        forall|i: int| 0 <= i < disks@.len() ==> describes(#[trigger] r@[i], disks@[i]),
{
    let mut out: Vec<WindowsDevice> = Vec::new();
    let mut i: usize = 0;
    while i < disks.len()
        invariant
            i <= disks.len(),
            out.len() == i,
            forall|j: int| 0 <= j < i ==> describes(#[trigger] out@[j], disks@[j]),
        decreases disks.len() - i,
    {
        out.push(describe(&disks[i]));
        i = i + 1;
    }
    out
}

} // verus!
