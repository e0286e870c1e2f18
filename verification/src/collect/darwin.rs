//! Process and descriptor tables as the macOS process queries return them.
//!
//! Each table takes two queries: the first asks how many bytes are needed,
//! the second fills a buffer. The table can grow between them, so the buffer
//! is oversized and the second answer, not the first, decides the length.
use vstd::prelude::*;

use crate::collect::processes::{indexable, is_indexable};
use crate::paths::{spellings, FilePath};

verus! {

/// The size of an entry in the pid table.
pub const PID_SIZE: usize = 4;

/// Entries by which the pid table may grow between the two queries.
pub const PID_SLACK: usize = 64;

/// Entries by which a descriptor table may grow between the two queries.
pub const FD_SLACK: usize = 32;

/// The type of a descriptor that has a path (`PROX_FDTYPE_VNODE`).
pub const VNODE: u32 = 1;

/// How many pids to make room for, after a query that asks for `needed`
/// bytes.
pub open spec fn pid_room(needed: i32) -> Option<usize> {
    if needed <= 0 {
        None
    } else {
        Some((needed as usize / PID_SIZE + PID_SLACK) as usize)
    }
}

/// How many pids to make room for, after a query that asks for `needed`
/// bytes; none where it failed.
pub fn pid_capacity(needed: i32) -> (r: Option<usize>)
    ensures
        r == pid_room(needed),
{
    if needed <= 0 {
        None
    } else {
        Some(needed as usize / PID_SIZE + PID_SLACK)
    }
}

/// The entries of a pid table that hold a pid, in their order.
pub open spec fn positive(table: Seq<i32>) -> Seq<u32>
    decreases table.len(),
{
    if table.len() == 0 {
        seq![]
    } else if table.last() > 0 {
        positive(table.drop_last()).push(table.last() as u32)
    } else {
        positive(table.drop_last())
    }
}

/// The part of a pid table that an answer of `got` bytes filled.
pub open spec fn filled(table: Seq<i32>, got: i32) -> Seq<i32> {
    if got <= 0 {
        seq![]
    } else if got as int / PID_SIZE as int >= table.len() {
        table
    } else {
        table.take(got as int / PID_SIZE as int)
    }
}

/// The pids in a table of which `got` bytes were filled. The tail is padded
/// with zeroes when the process table shrank.
pub fn list_pids(table: &Vec<i32>, got: i32) -> (r: Vec<u32>)
    ensures
        r@ == positive(filled(table@, got)),
{
    let mut out: Vec<u32> = Vec::new();
    if got <= 0 {
        return out;
    }
    let n: usize = got as usize / PID_SIZE;
    let end: usize = if n < table.len() {
        n
    } else {
        table.len()
    };
    let ghost part = filled(table@, got);
    assert(part =~= table@.take(end as int));
    let mut i: usize = 0;
    while i < end
        invariant
            i <= end <= table.len(),
            part == table@.take(end as int),
            out@ == positive(part.take(i as int)),
        decreases end - i,
    {
        assert(part.take(i + 1).drop_last() =~= part.take(i as int));
        if table[i] > 0 {
            out.push(table[i] as u32);
        }
        i = i + 1;
    }
    assert(part.take(i as int) =~= part);
    out
}

/// What the size query on a descriptor table says.
#[derive(Debug, Clone, Copy, PartialEq, Eq, Structural)]
pub enum FdTable {
    /// The process denied us.
    Denied,
    /// The process has nothing open.
    Empty,
    /// Room to make for entries.
    Ask(usize),
}

/// What a size of `bytes` says, with entries of `entry` bytes each.
pub open spec fn fd_answer(bytes: i32, entry: usize) -> FdTable {
    if bytes < 0 {
        FdTable::Denied
    } else if bytes == 0 {
        FdTable::Empty
    } else {
        FdTable::Ask((bytes as usize / entry + FD_SLACK) as usize)
    }
}

/// What a size of `bytes` says, with entries of `entry` bytes each. Zero is a
/// process with nothing open; negative is a denial. Conflating them would
/// report every empty process as one we were refused.
pub fn fd_table(bytes: i32, entry: usize) -> (r: FdTable)
    requires
        entry > 0,
    ensures
        r == fd_answer(bytes, entry),
{
    if bytes < 0 {
        FdTable::Denied
    } else if bytes == 0 {
        FdTable::Empty
    } else {
        assert(bytes as usize / entry <= bytes) by (nonlinear_arith)
            requires
                entry > 0,
                bytes > 0,
        ;
        FdTable::Ask(bytes as usize / entry + FD_SLACK)
    }
}

/// How many entries an answer of `got` bytes filled.
pub open spec fn fd_filled(got: i32, entry: usize) -> Option<usize> {
    if got < 0 {
        None
    } else {
        Some((got as usize / entry) as usize)
    }
}

/// How many entries an answer of `got` bytes filled; none where the process
/// denied us.
pub fn fd_count(got: i32, entry: usize) -> (r: Option<usize>)
    requires
        entry > 0,
    ensures
        r == fd_filled(got, entry),
{
    if got < 0 {
        None
    } else {
        Some(got as usize / entry)
    }
}

/// Whether a descriptor of type `fd_type` has a path.
pub fn has_path(fd_type: u32) -> (r: bool)
    ensures
        r == (fd_type == VNODE),
{
    fd_type == VNODE
}

/// What the path query on one descriptor gave back.
#[derive(Debug)]
pub struct FdReply {
    pub fd_type: u32,
    /// How many bytes were answered.
    pub answered: i32,
    /// The path buffer, chunk by chunk.
    pub path: Vec<Vec<i8>>,
}

/// The byte behind a signed character.
pub open spec fn byte_of(c: i8) -> u8 {
    if c < 0 {
        (c + 256) as u8
    } else {
        c as u8
    }
}

/// Chunks of characters as one run of bytes.
pub open spec fn flattened(chunks: Seq<Vec<i8>>) -> Seq<u8>
    decreases chunks.len(),
{
    if chunks.len() == 0 {
        seq![]
    } else {
        flattened(chunks.drop_last()) + chunks.last()@.map_values(|c: i8| byte_of(c))
    }
}

/// What stands before the first NUL.
pub open spec fn until_nul(bytes: Seq<u8>) -> Seq<u8>
    decreases bytes.len(),
{
    if bytes.len() == 0 || bytes[0] == 0 {
        seq![]
    } else {
        seq![bytes[0]] + until_nul(bytes.skip(1))
    }
}

proof fn lemma_until_nul(bytes: Seq<u8>, end: int)
    requires
        0 <= end <= bytes.len(),
        forall|i: int| 0 <= i < end ==> bytes[i] != 0,
        end < bytes.len() ==> bytes[end] == 0,
    ensures
        until_nul(bytes) == bytes.take(end),
    decreases bytes.len(),
{
    if end == 0 {
        assert(bytes.take(end) =~= seq![]);
    } else {
        let rest = bytes.skip(1);
        assert forall|i: int| 0 <= i < end - 1 implies rest[i] != 0 by {
            assert(rest[i] == bytes[i + 1]);
        }
        lemma_until_nul(rest, end - 1);
        assert(bytes.take(end) =~= seq![bytes[0]] + rest.take(end - 1));
    }
}

/// The byte behind a signed character.
fn to_byte(c: i8) -> (r: u8)
    ensures
        r == byte_of(c),
{
    if c < 0 {
        (c as i32 + 256) as u8
    } else {
        c as u8
    }
}

/// The path in a buffer of chunks, which a NUL ends; none where it is empty.
pub fn vnode_path(chunks: &Vec<Vec<i8>>) -> (r: Option<FilePath>)
    ensures
        match r {
            Some(path) => path@ == until_nul(flattened(chunks@)) && path@.len() > 0,
            None => until_nul(flattened(chunks@)).len() == 0,
        },
{
    let mut flat: Vec<u8> = Vec::new();
    let mut i: usize = 0;
    assert(flat@ =~= flattened(chunks@.take(0)));
    while i < chunks.len()
        invariant
            i <= chunks.len(),
            flat@ == flattened(chunks@.take(i as int)),
        decreases chunks.len() - i,
    {
        let chunk: &Vec<i8> = &chunks[i];
        let ghost before = flat@;
        let ghost bytes = chunk@.map_values(|c: i8| byte_of(c));
        let mut j: usize = 0;
        assert(flat@ =~= before + bytes.take(0));
        while j < chunk.len()
            invariant
                j <= chunk.len(),
                bytes == chunk@.map_values(|c: i8| byte_of(c)),
                flat@ == before + bytes.take(j as int),
            decreases chunk.len() - j,
        {
            flat.push(to_byte(chunk[j]));
            j = j + 1;
            assert(flat@ =~= before + bytes.take(j as int));
        }
        assert(bytes.take(j as int) =~= bytes);
        assert(chunks@.take(i + 1).drop_last() =~= chunks@.take(i as int));
        i = i + 1;
    }
    assert(chunks@.take(i as int) =~= chunks@);
    let mut end: usize = 0;
    while end < flat.len() && flat[end] != 0
        invariant
            end <= flat.len(),
            forall|k: int| 0 <= k < end ==> flat[k] != 0,
        decreases flat.len() - end,
    {
        end = end + 1;
    }
    proof {
        lemma_until_nul(flat@, end as int);
    }
    if end == 0 {
        return None;
    }
    flat.truncate(end);
    assert(flat@ =~= until_nul(flattened(chunks@)));
    Some(FilePath::from_bytes(flat))
}

/// The paths worth indexing among the replies, in their order. `full` is the
/// size of a complete answer: a shorter one is a descriptor without a path,
/// not a denial.
pub open spec fn replied_paths(replies: Seq<FdReply>, full: i32) -> Seq<Seq<u8>>
    decreases replies.len(),
{
    if replies.len() == 0 {
        seq![]
    } else {
        let before = replied_paths(replies.drop_last(), full);
        let reply = replies.last();
        let path = until_nul(flattened(reply.path@));
        if reply.fd_type == VNODE && reply.answered >= full && path.len() > 0 && indexable(path) {
            before.push(path)
        } else {
            before
        }
    }
}

/// The paths worth indexing that a process holds open, from what the path
/// query gave back for each descriptor.
pub fn open_files(replies: &Vec<FdReply>, full: i32) -> (r: Vec<FilePath>)
    ensures
        spellings(r@) == replied_paths(replies@, full),
{
    let mut out: Vec<FilePath> = Vec::new();
    let mut i: usize = 0;
    assert(spellings(out@) =~= replied_paths(replies@.take(0), full));
    while i < replies.len()
        invariant
            i <= replies.len(),
            spellings(out@) == replied_paths(replies@.take(i as int), full),
        decreases replies.len() - i,
    {
        assert(replies@.take(i + 1).drop_last() =~= replies@.take(i as int));
        let reply: &FdReply = &replies[i];
        if has_path(reply.fd_type) && reply.answered >= full {
            match vnode_path(&reply.path) {
                Some(path) => {
                    if is_indexable(&path) {
                        let ghost before = spellings(out@);
                        out.push(path);
                        assert(spellings(out@) =~= before.push(path@));
                    }
                },
                None => {},
            }
        }
        i = i + 1;
    }
    assert(replies@.take(i as int) =~= replies@);
    out
}

} // verus!
