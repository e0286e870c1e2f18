//! The reverse index: which processes hold a path open.
use vstd::prelude::*;

use crate::paths::{names, names_mark, rooted, starts_here, FilePath};

verus! {

/// Soft cap on the reverse index. A build tree can have tens of thousands
/// of files open across a job server; only paths that are already hot are
/// ever looked up, so an unbounded map is pure cost.
pub const MAX_OWNED_PATHS: usize = 8192;

/// A path, whatever its spelling.
pub struct PathKey {
    pub rooted: bool,
    pub here: bool,
    pub names: Seq<Seq<u8>>,
}

/// The path that `bytes` spell.
pub open spec fn path_key(bytes: Seq<u8>) -> PathKey {
    PathKey { rooted: rooted(bytes), here: starts_here(bytes), names: names(bytes) }
}

/// A path and the processes that hold it open.
#[derive(Debug)]
pub struct Holding {
    pub path: FilePath,
    /// The mark of `path`: a different one is a different path.
    pub mark: u64,
    pub pids: Vec<u32>,
}

/// What holdings say, path by path.
pub open spec fn index_of(entries: Seq<Holding>) -> Map<PathKey, Seq<u32>>
    decreases entries.len(),
{
    if entries.len() == 0 {
        Map::empty()
    } else {
        index_of(entries.drop_last()).insert(path_key(entries.last().path@), entries.last().pids@)
    }
}

/// No path occurs twice, and no process twice under one path. Each path
/// stands beside its mark.
pub open spec fn is_index(entries: Seq<Holding>) -> bool {
    &&& forall|i: int|
        0 <= i < entries.len() ==> (#[trigger] entries[i]).mark == names_mark(
            names(entries[i].path@),
        )
    &&& forall|i: int, j: int|
        0 <= i < j < entries.len() ==> path_key(entries[i].path@) != path_key(entries[j].path@)
    &&& forall|i: int| 0 <= i < entries.len() ==> (#[trigger] entries[i]).pids@.no_duplicates()
}

/// A list of processes and one more, which stands in it once.
pub open spec fn with_pid(pids: Seq<u32>, pid: u32) -> Seq<u32> {
    if pids.contains(pid) {
        pids
    } else {
        pids.push(pid)
    }
}

/// The index after process `pid` was seen with `path` open. A full index
/// takes no further path.
pub open spec fn noted(index: Map<PathKey, Seq<u32>>, path: Seq<u8>, pid: u32) -> Map<
    PathKey,
    Seq<u32>,
> {
    let key = path_key(path);
    if index.contains_key(key) {
        index.insert(key, with_pid(index[key], pid))
    } else if index.dom().len() >= MAX_OWNED_PATHS {
        index
    } else {
        index.insert(key, seq![pid])
    }
}

proof fn lemma_index(entries: Seq<Holding>)
    requires
        is_index(entries),
    ensures
        index_of(entries).dom().finite(),
        index_of(entries).dom().len() == entries.len(),
        forall|i: int|
            0 <= i < entries.len() ==> index_of(entries).contains_key(
                path_key((#[trigger] entries[i]).path@),
            ) && index_of(entries)[path_key(entries[i].path@)] == entries[i].pids@,
        forall|k: PathKey| #[trigger]
            index_of(entries).contains_key(k) ==> exists|i: int|
                0 <= i < entries.len() && path_key((#[trigger] entries[i]).path@) == k,
    decreases entries.len(),
{
    if entries.len() > 0 {
        let init = entries.drop_last();
        lemma_index(init);
        let last = path_key(entries.last().path@);
        if index_of(init).contains_key(last) {
            let i = choose|i: int|
                0 <= i < init.len() && path_key((#[trigger] init[i]).path@) == last;
            assert(entries[i] == init[i]);
            assert(entries[entries.len() - 1] == entries.last());
            assert(false);
        }
        assert forall|i: int| 0 <= i < entries.len() implies index_of(entries).contains_key(
            path_key((#[trigger] entries[i]).path@),
        ) && index_of(entries)[path_key(entries[i].path@)] == entries[i].pids@ by {
            if i < init.len() {
                assert(init[i] == entries[i]);
                assert(path_key(entries[i].path@) != path_key(entries[entries.len() - 1].path@));
            }
        }
        assert forall|k: PathKey| #[trigger] index_of(entries).contains_key(k) implies exists|
            i: int,
        |
            0 <= i < entries.len() && path_key((#[trigger] entries[i]).path@) == k by {
            if k == last {
                assert(path_key(entries[entries.len() - 1].path@) == k);
            } else {
                assert(index_of(init).contains_key(k));
                let i = choose|i: int|
                    0 <= i < init.len() && path_key((#[trigger] init[i]).path@) == k;
                assert(path_key(entries[i].path@) == k);
            }
        }
    }
}

proof fn lemma_index_determined(a: Seq<Holding>, m: Map<PathKey, Seq<u32>>)
    requires
        is_index(a),
        forall|i: int|
            0 <= i < a.len() ==> m.contains_key(path_key((#[trigger] a[i]).path@))
                && m[path_key(a[i].path@)] == a[i].pids@,
        forall|k: PathKey| #[trigger]
            m.contains_key(k) ==> exists|i: int|
                0 <= i < a.len() && path_key((#[trigger] a[i]).path@) == k,
    ensures
        index_of(a) == m,
{
    lemma_index(a);
    assert forall|k: PathKey| index_of(a).contains_key(k) == m.contains_key(k) by {
        if index_of(a).contains_key(k) {
            let i = choose|i: int| 0 <= i < a.len() && path_key((#[trigger] a[i]).path@) == k;
            assert(m.contains_key(path_key(a[i].path@)));
        }
        if m.contains_key(k) {
            let i = choose|i: int| 0 <= i < a.len() && path_key((#[trigger] a[i]).path@) == k;
            assert(index_of(a).contains_key(path_key(a[i].path@)));
        }
    }
    assert forall|k: PathKey| #[trigger] m.contains_key(k) implies index_of(a)[k] == m[k] by {
        let i = choose|i: int| 0 <= i < a.len() && path_key((#[trigger] a[i]).path@) == k;
        assert(a[i].pids@ == m[k]);
    }
    assert(index_of(a) =~= m);
}

/// Which processes hold each path open.
#[derive(Debug)]
pub struct OwnerIndex {
    pub entries: Vec<Holding>,
}

impl View for OwnerIndex {
    type V = Map<PathKey, Seq<u32>>;

    open spec fn view(&self) -> Map<PathKey, Seq<u32>> {
        index_of(self.entries@)
    }
}

/// Whether `pid` is among `pids`.
fn lists(pids: &Vec<u32>, pid: u32) -> (r: bool)
    ensures
        r == pids@.contains(pid),
{
    let mut i: usize = 0;
    while i < pids.len()
        invariant
            i <= pids.len(),
            forall|j: int| 0 <= j < i ==> pids[j] != pid,
        decreases pids.len() - i,
    {
        if pids[i] == pid {
            assert(pids@[i as int] == pid);
            return true;
        }
        i = i + 1;
    }
    false
}

impl OwnerIndex {
    /// No path occurs twice, and no process twice under one path. Each path
    /// stands beside its mark.
    pub open spec fn wf(&self) -> bool {
        is_index(self.entries@)
    }

    /// An empty index.
    pub fn new() -> (r: OwnerIndex)
        ensures
            r.wf(),
            r@ == Map::<PathKey, Seq<u32>>::empty(),
    {
        OwnerIndex { entries: Vec::new() }
    }

    /// How many paths are indexed.
    pub fn len(&self) -> (r: usize)
        requires
            self.wf(),
        ensures
            r == self@.dom().len(),
            self@.dom().finite(),
    {
        proof {
            lemma_index(self.entries@);
        }
        self.entries.len()
    }

    /// Where `path` stands.
    fn position(&self, path: &FilePath) -> (r: Option<usize>)
        requires
            self.wf(),
        ensures
            match r {
                Some(i) => i < self.entries.len() && path_key(self.entries[i as int].path@)
                    == path_key(path@),
                None => !self@.contains_key(path_key(path@)),
            },
    {
        let mark: u64 = path.mark();
        let mut i: usize = 0;
        while i < self.entries.len()
            invariant
                i <= self.entries.len(),
                self.wf(),
                mark == names_mark(names(path@)),
                forall|j: int|
                    0 <= j < i ==> path_key((#[trigger] self.entries[j]).path@) != path_key(path@),
            decreases self.entries.len() - i,
        {
            if self.entries[i].mark == mark && self.entries[i].path.same(path) {
                return Some(i);
            }
            i = i + 1;
        }
        proof {
            lemma_index(self.entries@);
        }
        None
    }

    /// The processes that hold `path` open, in the order in which they were
    /// seen.
    pub fn get(&self, path: &FilePath) -> (r: Option<&Vec<u32>>)
        requires
            self.wf(),
        ensures
            match r {
                Some(pids) => self@.contains_key(path_key(path@)) && pids@ == self@[path_key(
                    path@,
                )] && pids@.no_duplicates(),
                None => !self@.contains_key(path_key(path@)),
            },
    {
        proof {
            lemma_index(self.entries@);
        }
        match self.position(path) {
            Some(i) => {
                assert(self.entries@[i as int].pids@ == self@[path_key(path@)]);
                Some(&self.entries[i].pids)
            },
            None => None,
        }
    }

    /// Takes note that process `pid` holds `path` open.
    pub fn note(&mut self, path: &FilePath, pid: u32)
        requires
            old(self).wf(),
        ensures
            final(self).wf(),
            final(self)@ == noted(old(self)@, path@, pid),
    {
        let ghost before = self.entries@;
        let ghost key = path_key(path@);
        proof {
            lemma_index(before);
        }
        match self.position(path) {
            Some(i) => {
                assert(self@[key] == before[i as int].pids@);
                if !lists(&self.entries[i].pids, pid) {
                    self.entries[i].pids.push(pid);
                    proof {
                        let after = self.entries@;
                        let pids = before[i as int].pids@.push(pid);
                        assert(after[i as int].pids@ == pids);
                        assert(pids.no_duplicates());
                        assert(is_index(after)) by {
                            assert forall|a: int, b: int| 0 <= a < b < after.len() implies path_key(
                                after[a].path@,
                            ) != path_key(after[b].path@) by {
                                assert(path_key(before[a].path@) != path_key(before[b].path@));
                            }
                            assert forall|a: int| 0 <= a < after.len() implies (
                            #[trigger] after[a]).pids@.no_duplicates() by {
                                if a != i {
                                    assert(after[a] == before[a]);
                                }
                            }
                        }
                        let m = noted(index_of(before), path@, pid);
                        assert forall|a: int| 0 <= a < after.len() implies m.contains_key(
                            path_key((#[trigger] after[a]).path@),
                        ) && m[path_key(after[a].path@)] == after[a].pids@ by {
                            if a != i {
                                assert(after[a] == before[a]);
                                assert(path_key(before[a].path@) != key);
                            }
                        }
                        assert forall|k: PathKey| #[trigger] m.contains_key(k) implies exists|
                            a: int,
                        |
                            0 <= a < after.len() && path_key((#[trigger] after[a]).path@) == k by {
                            let a = choose|a: int|
                                0 <= a < before.len() && path_key((#[trigger] before[a]).path@)
                                    == k;
                            assert(path_key(after[a].path@) == k);
                        }
                        lemma_index_determined(after, m);
                    }
                } else {
                    assert(noted(index_of(before), path@, pid) =~= index_of(before));
                }
            },
            None => {
                if self.entries.len() < MAX_OWNED_PATHS {
                    let mut pids: Vec<u32> = Vec::new();
                    pids.push(pid);
                    let added: Holding = Holding { path: path.clone(), mark: path.mark(), pids };
                    self.entries.push(added);
                    proof {
                        let after = self.entries@;
                        assert(after.drop_last() =~= before);
                        assert(pids@ =~= seq![pid]);
                        assert forall|a: int, b: int| 0 <= a < b < after.len() implies path_key(
                            after[a].path@,
                        ) != path_key(after[b].path@) by {
                            assert(after[a] == before[a]);
                            assert(index_of(before).contains_key(path_key(before[a].path@)));
                            if b < before.len() {
                                assert(after[b] == before[b]);
                            }
                        }
                        assert forall|a: int| 0 <= a < after.len() implies (
                        #[trigger] after[a]).pids@.no_duplicates() by {
                            if a < before.len() {
                                assert(after[a] == before[a]);
                            }
                        }
                    }
                }
            },
        }
    }
}

} // verus!
