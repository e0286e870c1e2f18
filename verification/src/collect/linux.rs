//! Process and descriptor tables as `/proc` shows them.
use vstd::prelude::*;
use vstd::utf8::valid_utf8;

use crate::collect::processes::{indexable, is_indexable};
use crate::paths::{ends_with, spellings, FilePath};

verus! {

/// `+`
pub const PLUS: u8 = 43;

/// `0`
pub const ZERO: u8 = 48;

/// `9`
pub const NINE: u8 = 57;

/// Every byte is a decimal digit.
pub open spec fn all_digits(text: Seq<u8>) -> bool {
    forall|i: int| 0 <= i < text.len() ==> ZERO <= #[trigger] text[i] && text[i] <= NINE
}

/// The number that decimal digits spell.
pub open spec fn number(text: Seq<u8>) -> nat
    decreases text.len(),
{
    if text.len() == 0 {
        0
    } else {
        10 * number(text.drop_last()) + (text.last() - ZERO) as nat
    }
}

/// A name without the one plus sign that may lead it.
pub open spec fn unsigned_part(name: Seq<u8>) -> Seq<u8> {
    if name.len() > 0 && name[0] == PLUS {
        name.skip(1)
    } else {
        name
    }
}

/// The pid that `name` spells, if it spells one.
pub open spec fn pid_in(name: Seq<u8>) -> Option<u32> {
    let digits = unsigned_part(name);
    if digits.len() > 0 && all_digits(digits) && number(digits) <= u32::MAX {
        Some(number(digits) as u32)
    } else {
        None
    }
}

/// The pids among the names in `/proc`, in their order.
pub open spec fn pids_in(names: Seq<Vec<u8>>) -> Seq<u32>
    decreases names.len(),
{
    if names.len() == 0 {
        seq![]
    } else {
        match pid_in(names.last()@) {
            Some(pid) => pids_in(names.drop_last()).push(pid),
            None => pids_in(names.drop_last()),
        }
    }
}

proof fn lemma_number_grows(text: Seq<u8>, i: int)
    requires
        all_digits(text),
        0 <= i <= text.len(),
    ensures
        number(text.take(i)) <= number(text),
    decreases text.len(),
{
    if i < text.len() {
        assert(text.drop_last().take(i) =~= text.take(i));
        lemma_number_grows(text.drop_last(), i);
    } else {
        assert(text.take(i) =~= text);
    }
}

/// The pid that `name` spells, if it spells one.
pub fn parse_pid(name: &Vec<u8>) -> (r: Option<u32>)
    ensures
        r == pid_in(name@),
{
    let start: usize = if name.len() > 0 && name[0] == PLUS {
        1
    } else {
        0
    };
    let ghost digits = unsigned_part(name@);
    if name.len() == start {
        return None;
    }
    let mut value: u64 = 0;
    let mut i: usize = start;
    assert(digits.take(0) =~= seq![]);
    while i < name.len()
        invariant
            start <= i <= name.len(),
            digits == unsigned_part(name@),
            digits.len() == name.len() - start,
            forall|j: int| 0 <= j < digits.len() ==> digits[j] == name@[j + start],
            forall|j: int| 0 <= j < i - start ==> ZERO <= #[trigger] digits[j] && digits[j] <= NINE,
            value == number(digits.take(i - start)),
            value <= u32::MAX,
        decreases name.len() - i,
    {
        let b: u8 = name[i];
        let ghost at = i - start;
        assert(digits[at] == b);
        if b < ZERO || b > NINE {
            return None;
        }
        proof {
            assert(digits.take(at + 1).drop_last() =~= digits.take(at));
            assert(digits.take(at + 1).last() == b);
        }
        value = value * 10 + (b - ZERO) as u64;
        i = i + 1;
        if value > 0xFFFF_FFFF {
            proof {
                if all_digits(digits) {
                    lemma_number_grows(digits, at + 1);
                }
            }
            return None;
        }
    }
    assert(digits.take(i - start) =~= digits);
    Some(value as u32)
}

/// The pids among the names of the entries in `/proc`.
pub fn list_pids(names: &Vec<Vec<u8>>) -> (r: Vec<u32>)
    ensures
        r@ == pids_in(names@),
{
    let mut out: Vec<u32> = Vec::new();
    let mut i: usize = 0;
    while i < names.len()
        invariant
            i <= names.len(),
            out@ == pids_in(names@.take(i as int)),
        decreases names.len() - i,
    {
        assert(names@.take(i + 1).drop_last() =~= names@.take(i as int));
        match parse_pid(&names[i]) {
            Some(pid) => {
                out.push(pid);
            },
            None => {},
        }
        i = i + 1;
    }
    assert(names@.take(i as int) =~= names@);
    out
}

/// The target of a descriptor link, without the marker that the kernel puts
/// behind an unlinked file. The path is still the one the events named right
/// up until it was removed.
pub open spec fn unmarked(target: Seq<u8>) -> Seq<u8> {
    if valid_utf8(target) && ends_with(target, " (deleted)"@) {
        target.take(target.len() - " (deleted)"@.len())
    } else {
        target
    }
}

/// The targets worth indexing, unmarked, in their order.
pub open spec fn kept(targets: Seq<FilePath>) -> Seq<Seq<u8>>
    decreases targets.len(),
{
    if targets.len() == 0 {
        seq![]
    } else {
        let path = unmarked(targets.last()@);
        if indexable(path) {
            kept(targets.drop_last()).push(path)
        } else {
            kept(targets.drop_last())
        }
    }
}

/// The path behind a descriptor link.
pub fn strip_deleted(target: &FilePath) -> (r: FilePath)
    ensures
        r@ == unmarked(target@),
{
    let mut r: FilePath = target.clone();
    if target.is_text() && target.ends(" (deleted)") {
        proof {
            reveal_strlit(" (deleted)");
            vstd::string::is_ascii_spec_bytes(" (deleted)");
        }
        let len: usize = r.bytes.len();
        r.bytes.truncate(len - 10);
        assert(r@ =~= unmarked(target@));
    }
    r
}

/// The paths worth indexing that a process holds open, from the targets of
/// its descriptor links. `None` when the process denied us: the caller counts
/// that as hidden rather than as a process with nothing open.
pub fn open_files(targets: &Option<Vec<FilePath>>) -> (r: Option<Vec<FilePath>>)
    ensures
        r is Some <==> targets is Some,
        r matches Some(paths) ==> spellings(paths@) == kept(targets->0@),
{
    match targets {
        None => None,
        Some(list) => {
            let mut out: Vec<FilePath> = Vec::new();
            let mut i: usize = 0;
            assert(spellings(out@) =~= kept(list@.take(0)));
            while i < list.len()
                invariant
                    i <= list.len(),
                    spellings(out@) == kept(list@.take(i as int)),
                decreases list.len() - i,
            {
                assert(list@.take(i + 1).drop_last() =~= list@.take(i as int));
                let path: FilePath = strip_deleted(&list[i]);
                if is_indexable(&path) {
                    let ghost before = spellings(out@);
                    out.push(path);
                    assert(spellings(out@) =~= before.push(path@));
                }
                i = i + 1;
            }
            assert(list@.take(i as int) =~= list@);
            Some(out)
        },
    }
}

} // verus!
