//! What the process, descriptor and drive tables promise, entry by entry.
use vstd::prelude::*;
use vstd::utf8::{encode_utf8, valid_utf8};

use crate::collect::darwin::{byte_of, fd_answer, fd_filled, filled, flattened, pid_room, positive, replied_paths, until_nul, FdReply, FdTable};
use crate::collect::linux::{all_digits, kept, number, pid_in, pids_in, unmarked, unsigned_part};
use crate::collect::processes::indexable;
use crate::collect::windows::{category, describes, drive_name, separator, DiskKind, DiskReading, WindowsDevice, WindowsKind};
use crate::laws::text::{is_figure, reads};
use crate::paths::FilePath;

verus! {

/// Bytes as the characters with the same codes.
pub open spec fn as_chars(bytes: Seq<u8>) -> Seq<char> {
    Seq::new(bytes.len(), |i: int| bytes[i] as char)
}

proof fn lemma_number_reads(text: Seq<u8>)
    requires
        all_digits(text),
    ensures
        number(text) == reads(as_chars(text)),
        is_figure(as_chars(text)),
    decreases text.len(),
{
    if text.len() > 0 {
        let init = text.drop_last();
        assert(all_digits(init)) by {
            assert forall|i: int| 0 <= i < init.len() implies 48 <= #[trigger] init[i] && init[i]
                <= 57 by {
                assert(init[i] == text[i]);
            }
        }
        lemma_number_reads(init);
        assert(as_chars(text).drop_last() =~= as_chars(init));
        assert(text[text.len() - 1] == text.last());
        assert(as_chars(text).last() as int == text.last());
    }
}

/// A name is a pid exactly where it is decimal digits, with at most one plus
/// before them, whose number fits 32 bits; the pid is that number.
pub proof fn law_pids_are_the_numbers_they_spell(name: Seq<u8>)
    ensures
        ({
            let digits = if name.len() > 0 && name[0] == 43u8 {
                name.skip(1)
            } else {
                name
            };
            let value = reads(as_chars(digits));
            if digits.len() > 0 && is_figure(as_chars(digits)) && value <= 0xFFFF_FFFF {
                pid_in(name) == Some(value as u32)
            } else {
                pid_in(name) is None
            }
        }),
{
    let digits = unsigned_part(name);
    assert(all_digits(digits) <==> is_figure(as_chars(digits))) by {
        if is_figure(as_chars(digits)) {
            assert forall|i: int| 0 <= i < digits.len() implies 48 <= #[trigger] digits[i]
                && digits[i] <= 57 by {
                assert(as_chars(digits)[i] as int == digits[i]);
            }
        }
        if all_digits(digits) {
            assert forall|i: int| 0 <= i < digits.len() implies 48 <= (#[trigger] as_chars(
                digits,
            )[i]) as int <= 57 by {
                assert(48 <= digits[i] && digits[i] <= 57);
            }
        }
    }
    if all_digits(digits) {
        lemma_number_reads(digits);
    }
}

/// Names are looked at one by one: each that is a pid is listed, in its place.
pub proof fn law_pids_are_listed_in_order(a: Seq<Vec<u8>>, b: Seq<Vec<u8>>, one: Vec<u8>)
    ensures
        pids_in(a + b) == pids_in(a) + pids_in(b),
        pids_in(seq![one]) == (match pid_in(one@) {
            Some(pid) => seq![pid],
            None => seq![],
        }),
    decreases b.len(),
{
    if b.len() == 0 {
        assert(a + b =~= a);
        assert(pids_in(a) + pids_in(b) =~= pids_in(a));
    } else {
        law_pids_are_listed_in_order(a, b.drop_last(), one);
        assert((a + b).drop_last() =~= a + b.drop_last());
        assert((a + b).last() == b.last());
        assert(pids_in(a + b) =~= pids_in(a) + pids_in(b));
    }
    assert(seq![one].drop_last() =~= seq![]);
    assert(pids_in(seq![one].drop_last()) =~= seq![]);
    assert(pids_in(seq![one]) =~= (match pid_in(one@) {
        Some(pid) => seq![pid],
        None => seq![],
    }));
}

/// ` (deleted)`, byte for byte.
pub open spec fn marker() -> Seq<u8> {
    seq![32u8, 40u8, 100u8, 101u8, 108u8, 101u8, 116u8, 101u8, 100u8, 41u8]
}

proof fn lemma_marker()
    ensures
        encode_utf8(" (deleted)"@) == marker(),
        " (deleted)"@.len() == 10,
{
    reveal_strlit(" (deleted)");
    vstd::string::is_ascii_spec_bytes(" (deleted)");
    assert(encode_utf8(" (deleted)"@) =~= marker());
}

/// The marker of an unlinked file is taken off, once, and nothing else is.
pub proof fn law_deletion_marker_is_taken_off(path: Seq<u8>)
    ensures
        valid_utf8(path + marker()) ==> unmarked(path + marker()) == path,
        !valid_utf8(path) ==> unmarked(path) == path,
        !marker().is_suffix_of(path) ==> unmarked(path) == path,
{
    lemma_marker();
    let longer = path + marker();
    assert(longer.subrange(longer.len() - 10, longer.len() as int) =~= marker());
    assert(longer.take(longer.len() - 10) =~= path);
}

/// A path that is text is worth indexing exactly where it starts at the root
/// and not below `/proc`, `/sys` or `/dev`; one that is no text always is.
pub proof fn law_pseudo_filesystems_are_left_out(path: Seq<u8>)
    ensures
        !valid_utf8(path) ==> indexable(path),
        valid_utf8(path) ==> (indexable(path) <==> {
            &&& seq![47u8].is_prefix_of(path)
            &&& !seq![47u8, 112u8, 114u8, 111u8, 99u8, 47u8].is_prefix_of(path)
            &&& !seq![47u8, 115u8, 121u8, 115u8, 47u8].is_prefix_of(path)
            &&& !seq![47u8, 100u8, 101u8, 118u8, 47u8].is_prefix_of(path)
        }),
{
    reveal_strlit("/");
    reveal_strlit("/proc/");
    reveal_strlit("/sys/");
    reveal_strlit("/dev/");
    vstd::string::is_ascii_spec_bytes("/");
    vstd::string::is_ascii_spec_bytes("/proc/");
    vstd::string::is_ascii_spec_bytes("/sys/");
    vstd::string::is_ascii_spec_bytes("/dev/");
    assert(encode_utf8("/"@) =~= seq![47u8]);
    assert(encode_utf8("/proc/"@) =~= seq![47u8, 112u8, 114u8, 111u8, 99u8, 47u8]);
    assert(encode_utf8("/sys/"@) =~= seq![47u8, 115u8, 121u8, 115u8, 47u8]);
    assert(encode_utf8("/dev/"@) =~= seq![47u8, 100u8, 101u8, 118u8, 47u8]);
}

/// Descriptor links are looked at one by one: each that leads to a path worth
/// indexing is listed, in its place.
pub proof fn law_links_are_kept_in_order(a: Seq<FilePath>, b: Seq<FilePath>, one: FilePath)
    ensures
        kept(a + b) == kept(a) + kept(b),
        kept(seq![one]) == (if indexable(unmarked(one@)) {
            seq![unmarked(one@)]
        } else {
            seq![]
        }),
    decreases b.len(),
{
    if b.len() == 0 {
        assert(a + b =~= a);
        assert(kept(a) + kept(b) =~= kept(a));
    } else {
        law_links_are_kept_in_order(a, b.drop_last(), one);
        assert((a + b).drop_last() =~= a + b.drop_last());
        assert((a + b).last() == b.last());
        assert(kept(a + b) =~= kept(a) + kept(b));
    }
    assert(seq![one].drop_last() =~= seq![]);
    assert(kept(seq![one].drop_last()) =~= seq![]);
    assert(kept(seq![one]) =~= (if indexable(unmarked(one@)) {
        seq![unmarked(one@)]
    } else {
        seq![]
    }));
}

/// Entries of a pid table are looked at one by one: each above zero is
/// listed, in its place.
pub proof fn law_positive_entries_are_pids(a: Seq<i32>, b: Seq<i32>, one: i32)
    ensures
        positive(a + b) == positive(a) + positive(b),
        positive(seq![one]) == (if one > 0 {
            seq![one as u32]
        } else {
            seq![]
        }),
    decreases b.len(),
{
    if b.len() == 0 {
        assert(a + b =~= a);
        assert(positive(a) + positive(b) =~= positive(a));
    } else {
        law_positive_entries_are_pids(a, b.drop_last(), one);
        assert((a + b).drop_last() =~= a + b.drop_last());
        assert((a + b).last() == b.last());
        assert(positive(a + b) =~= positive(a) + positive(b));
    }
    assert(seq![one].drop_last() =~= seq![]);
    assert(positive(seq![one].drop_last()) =~= seq![]);
    assert(positive(seq![one]) =~= (if one > 0 {
        seq![one as u32]
    } else {
        seq![]
    }));
}

/// Only what was answered counts: the front of the table, one entry for every
/// four bytes.
pub proof fn law_only_answered_entries_count(table: Seq<i32>, got: i32)
    ensures
        filled(table, got).is_prefix_of(table),
        got <= 0 ==> filled(table, got).len() == 0,
        got > 0 && 4 * table.len() > got ==> 4 * filled(table, got).len() <= got && got < 4
            * filled(table, got).len() + 4,
        got > 0 && 4 * table.len() <= got ==> filled(table, got) == table,
{
    assert(filled(table, got) =~= table.take(filled(table, got).len() as int));
}

/// A table is asked for with room for all of its entries and some more, where
/// it has any; only a negative answer is a denial.
pub proof fn law_tables_are_asked_for_with_room_to_grow(
    bytes: i32,
    entry: usize,
    n: usize,
)
    requires
        entry > 0,
        n * entry <= bytes < n * entry + entry,
    ensures
        bytes > 0 ==> fd_answer(bytes, entry) == FdTable::Ask((n + 32) as usize),
        bytes == 0 ==> fd_answer(bytes, entry) == FdTable::Empty,
        fd_filled(bytes, entry) == Some(n),
        entry == 4 && bytes > 0 ==> pid_room(bytes) == Some((n + 64) as usize),
        pid_room(0) is None,
        forall|refused: i32| #![trigger fd_answer(refused, entry)]
            refused < 0 ==> fd_answer(refused, entry) == FdTable::Denied && fd_filled(
                refused,
                entry,
            ) is None && pid_room(refused) is None,
{
    vstd::arithmetic::div_mod::lemma_fundamental_div_mod_converse(
        bytes as int,
        entry as int,
        n as int,
        bytes - n * entry,
    );
}

/// Chunks of a path buffer follow each other, and each signed character is
/// the byte with the same low bits.
pub proof fn law_chunks_follow_each_other(a: Seq<Vec<i8>>, b: Seq<Vec<i8>>, one: Vec<i8>, i: int)
    requires
        0 <= i < one@.len(),
    ensures
        flattened(a + b) == flattened(a) + flattened(b),
        flattened(seq![one]).len() == one@.len(),
        flattened(seq![one])[i] as int == (one@[i] as int) % 256,
{
    lemma_chunks(a, b);
    assert(seq![one].drop_last() =~= seq![]);
    assert(flattened(seq![one].drop_last()) =~= seq![]);
    assert(flattened(seq![one]) =~= one@.map_values(|c: i8| byte_of(c)));
}

proof fn lemma_chunks(a: Seq<Vec<i8>>, b: Seq<Vec<i8>>)
    ensures
        flattened(a + b) == flattened(a) + flattened(b),
    decreases b.len(),
{
    if b.len() == 0 {
        assert(a + b =~= a);
        assert(flattened(a) + flattened(b) =~= flattened(a));
    } else {
        lemma_chunks(a, b.drop_last());
        assert((a + b).drop_last() =~= a + b.drop_last());
        assert((a + b).last() == b.last());
        assert(flattened(a + b) =~= flattened(a) + flattened(b));
    }
}

/// A path in a buffer is what stands before the first NUL, all of it.
pub proof fn law_paths_end_at_the_first_nul(bytes: Seq<u8>)
    ensures
        until_nul(bytes).is_prefix_of(bytes),
        !until_nul(bytes).contains(0u8),
        until_nul(bytes).len() == bytes.len() || bytes[until_nul(bytes).len() as int] == 0u8,
    decreases bytes.len(),
{
    let path = until_nul(bytes);
    if bytes.len() == 0 || bytes[0] == 0 {
        assert(path =~= bytes.take(0));
    } else {
        let rest = bytes.skip(1);
        law_paths_end_at_the_first_nul(rest);
        let more = until_nul(rest);
        assert(path =~= seq![bytes[0]] + more);
        assert(more =~= rest.take(more.len() as int));
        assert(path =~= bytes.take(path.len() as int));
        assert forall|i: int| 0 <= i < path.len() implies path[i] != 0u8 by {
            if i > 0 {
                assert(path[i] == more[i - 1]);
                assert(more.contains(more[i - 1]));
            }
        }
        if more.len() < rest.len() {
            assert(rest[more.len() as int] == bytes[path.len() as int]);
        }
    }
}

/// Replies are looked at one by one: each with a path worth indexing is
/// listed, in its place. A reply has a path where it is of a file and was
/// answered in full.
pub proof fn law_replies_are_kept_in_order(
    a: Seq<FdReply>,
    b: Seq<FdReply>,
    one: FdReply,
    full: i32,
)
    ensures
        replied_paths(a + b, full) == replied_paths(a, full) + replied_paths(b, full),
        ({
            let path = until_nul(flattened(one.path@));
            replied_paths(seq![one], full) == (if one.fd_type == 1 && one.answered >= full
                && path.len() > 0 && indexable(path) {
                seq![path]
            } else {
                seq![]
            })
        }),
    decreases b.len(),
{
    if b.len() == 0 {
        assert(a + b =~= a);
        assert(replied_paths(a, full) + replied_paths(b, full) =~= replied_paths(a, full));
    } else {
        law_replies_are_kept_in_order(a, b.drop_last(), one, full);
        assert((a + b).drop_last() =~= a + b.drop_last());
        assert((a + b).last() == b.last());
        assert(replied_paths(a + b, full) =~= replied_paths(a, full) + replied_paths(b, full));
    }
    let path = until_nul(flattened(one.path@));
    assert(seq![one].drop_last() =~= seq![]);
    assert(replied_paths(seq![one].drop_last(), full) =~= seq![]);
    assert(replied_paths(seq![one], full) =~= (if one.fd_type == 1 && one.answered >= full
        && path.len() > 0 && indexable(path) {
        seq![path]
    } else {
        seq![]
    }));
}

/// A drive is named by its mount point up to the separators at the end: only
/// slashes and backslashes are taken off, and all of them are.
pub proof fn law_drive_names_lose_their_separators(mount: Seq<char>)
    ensures
        drive_name(mount).is_prefix_of(mount),
        drive_name(mount).len() > 0 ==> drive_name(mount).last() != '/' && drive_name(mount).last()
            != '\\',
        forall|i: int|
            drive_name(mount).len() <= i < mount.len() ==> (#[trigger] mount[i]) == '/' || mount[i]
                == '\\',
    decreases mount.len(),
{
    if mount.len() > 0 && separator(mount.last()) {
        let init = mount.drop_last();
        law_drive_names_lose_their_separators(init);
        assert(drive_name(mount) =~= mount.take(drive_name(mount).len() as int)) by {
            assert(drive_name(init) =~= init.take(drive_name(init).len() as int));
        }
        assert forall|i: int| drive_name(mount).len() <= i < mount.len() implies (#[trigger] mount[i])
            == '/' || mount[i] == '\\' by {
            if i < init.len() {
                assert(init[i] == mount[i]);
            }
        }
    } else {
        assert(drive_name(mount) =~= mount.take(mount.len() as int));
    }
}

/// A device has the size of its drive, is used by what is not available, is
/// removable where the drive is, and says of its kind what the drive says
/// unless it can be removed.
pub proof fn law_devices_say_what_their_drives_say(device: WindowsDevice, disk: DiskReading)
    requires
        describes(device, disk),
    ensures
        device.name@ == drive_name(disk.mount@),
        device.size_bytes == disk.total,
        disk.available <= disk.total ==> device.used_bytes + disk.available == disk.total,
        disk.available > disk.total ==> device.used_bytes == 0,
        device.removable == disk.removable,
        device.kind == WindowsKind::UsbMassStorage <==> disk.removable,
        device.kind == WindowsKind::Ssd <==> !disk.removable && disk.kind == DiskKind::Ssd,
        device.kind == WindowsKind::Hdd <==> !disk.removable && disk.kind == DiskKind::Hdd,
        disk.removable ==> device.model@ == "Removable Drive ("@ + device.name@ + ")"@,
        !disk.removable ==> device.model@ == "Local Disk ("@ + device.name@ + ")"@,
        device.bus@.len() == 0,
        device.firmware is None,
        device.serial is None,
        device.smart_ok is None,
{
    reveal_strlit("");
    assert(category(disk) == device.kind);
}

} // verus!
