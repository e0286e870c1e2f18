//! File paths as bytes, compared name by name.
use vstd::prelude::*;
use vstd::utf8::{decode_utf8, encode_utf8, valid_utf8};

verus! {

/// `/`
pub const SLASH: u8 = 47;

/// `.`
pub const DOT: u8 = 46;

/// A path, by its bytes.
#[derive(Debug)]
pub struct FilePath {
    pub bytes: Vec<u8>,
}

impl View for FilePath {
    type V = Seq<u8>;

    open spec fn view(&self) -> Seq<u8> {
        self.bytes@
    }
}

/// What stands behind the last slash.
pub open spec fn tail(path: Seq<u8>) -> Seq<u8>
    decreases path.len(),
{
    if path.len() == 0 || path.last() == SLASH {
        seq![]
    } else {
        tail(path.drop_last()).push(path.last())
    }
}

/// The names so far and one more piece between slashes. An empty piece and
/// `.` name nothing.
pub open spec fn with_piece(names: Seq<Seq<u8>>, piece: Seq<u8>) -> Seq<Seq<u8>> {
    if piece.len() == 0 || piece == seq![DOT] {
        names
    } else {
        names.push(piece)
    }
}

/// The names that a slash ends.
pub open spec fn closed_names(path: Seq<u8>) -> Seq<Seq<u8>>
    decreases path.len(),
{
    if path.len() == 0 {
        seq![]
    } else if path.last() == SLASH {
        with_piece(closed_names(path.drop_last()), tail(path.drop_last()))
    } else {
        closed_names(path.drop_last())
    }
}

/// The names along a path.
pub open spec fn names(path: Seq<u8>) -> Seq<Seq<u8>> {
    with_piece(closed_names(path), tail(path))
}

/// The path starts at the root.
pub open spec fn rooted(path: Seq<u8>) -> bool {
    path.len() > 0 && path[0] == SLASH
}

/// The path starts with a `.` of its own.
pub open spec fn starts_here(path: Seq<u8>) -> bool {
    path.len() > 0 && path[0] == DOT && (path.len() == 1 || path[1] == SLASH)
}

/// Two spellings of one path: repeated and trailing slashes make no
/// difference, nor does a `.` that does not start the path.
pub open spec fn same_path(a: Seq<u8>, b: Seq<u8>) -> bool {
    &&& rooted(a) == rooted(b)
    &&& starts_here(a) == starts_here(b)
    &&& names(a) == names(b)
}

/// What a mark is taken modulo.
pub const MARK_PRIME: u64 = 4_294_967_291;

/// What a mark is multiplied by before the next byte.
pub const MARK_FACTOR: u64 = 257;

/// The mark `start` carried on over `piece`.
pub open spec fn piece_mark(start: nat, piece: Seq<u8>) -> nat
    decreases piece.len(),
{
    if piece.len() == 0 {
        start
    } else {
        (piece_mark(start, piece.drop_last()) * MARK_FACTOR as nat + piece.last() as nat + 1)
            % MARK_PRIME as nat
    }
}

/// A number that tells most paths apart: spellings of one path have the same.
pub open spec fn names_mark(names: Seq<Seq<u8>>) -> nat
    decreases names.len(),
{
    if names.len() == 0 {
        0
    } else {
        (piece_mark(names_mark(names.drop_last()), names.last()) * MARK_FACTOR as nat)
            % MARK_PRIME as nat
    }
}

/// What paths spell.
pub open spec fn spellings(paths: Seq<FilePath>) -> Seq<Seq<u8>> {
    Seq::new(paths.len(), |i: int| paths[i]@)
}

/// What vectors of bytes hold.
pub open spec fn byte_seqs(v: Seq<Vec<u8>>) -> Seq<Seq<u8>> {
    Seq::new(v.len(), |i: int| v[i]@)
}

/// The text of bytes, with each stretch that is no UTF-8 replaced.
pub uninterp spec fn lossy_text(bytes: Seq<u8>) -> Seq<char>;

/// `String::from_utf8_lossy`: the text of the bytes where they are UTF-8, and
/// otherwise the same with replacement characters, which depends on the bytes
/// alone.
#[verifier::external_body]
fn from_utf8_lossy(bytes: &[u8]) -> (r: String)
    ensures
        r@ == lossy_text(bytes@),
        valid_utf8(bytes@) ==> r@ == decode_utf8(bytes@),
{
    String::from_utf8_lossy(bytes).into_owned()
}

/// `std::str::from_utf8` succeeds on exactly the bytes that are UTF-8.
#[verifier::external_body]
fn is_utf8(bytes: &[u8]) -> (r: bool)
    ensures
        r == valid_utf8(bytes@),
{
    std::str::from_utf8(bytes).is_ok()
}

/// Whether two vectors hold the same bytes.
pub fn same_bytes(a: &Vec<u8>, b: &Vec<u8>) -> (r: bool)
    ensures
        r == (a@ == b@),
{
    if a.len() != b.len() {
        return false;
    }
    let mut i: usize = 0;
    while i < a.len()
        invariant
            i <= a.len(),
            a.len() == b.len(),
            forall|j: int| 0 <= j < i ==> a[j] == b[j],
        decreases a.len() - i,
    {
        if a[i] != b[i] {
            return false;
        }
        i = i + 1;
    }
    assert(a@ =~= b@);
    true
}

/// A copy of the bytes.
pub fn copy_bytes(a: &Vec<u8>) -> (r: Vec<u8>)
    ensures
        r@ == a@,
{
    let mut r: Vec<u8> = Vec::new();
    let mut i: usize = 0;
    while i < a.len()
        invariant
            i <= a.len(),
            r@ == a@.take(i as int),
        decreases a.len() - i,
    {
        r.push(a[i]);
        i = i + 1;
        assert(r@ =~= a@.take(i as int));
    }
    assert(r@ =~= a@);
    r
}

/// `bytes` begin with the text `prefix`.
pub open spec fn begins_with(bytes: Seq<u8>, prefix: Seq<char>) -> bool {
    encode_utf8(prefix).is_prefix_of(bytes)
}

/// `bytes` end with the text `suffix`.
pub open spec fn ends_with(bytes: Seq<u8>, suffix: Seq<char>) -> bool {
    encode_utf8(suffix).is_suffix_of(bytes)
}

/// Puts a piece behind the names.
fn put_piece(names: &mut Vec<Vec<u8>>, piece: Vec<u8>)
    ensures
        byte_seqs(final(names)@) == with_piece(byte_seqs(old(names)@), piece@),
{
    let ghost before = byte_seqs(names@);
    if piece.len() == 0 {
    } else if piece.len() == 1 && piece[0] == DOT {
        assert(piece@ =~= seq![DOT]);
    } else {
        assert(piece@ != seq![DOT]) by {
            if piece@ == seq![DOT] {
                assert(piece@.len() == 1 && piece@[0] == DOT);
            }
        }
        names.push(piece);
        assert(byte_seqs(names@) =~= before.push(piece@));
    }
}

impl FilePath {
    /// The path that `text` spells.
    pub fn new(text: &str) -> (r: FilePath)
        ensures
            r@ == encode_utf8(text@),
    {
        FilePath { bytes: text.as_bytes_vec() }
    }

    /// The path with these bytes.
    pub fn from_bytes(bytes: Vec<u8>) -> (r: FilePath)
        ensures
            r@ == bytes@,
    {
        FilePath { bytes }
    }

    /// The path as text, for the screen.
    pub fn display(&self) -> (r: String)
        ensures
            r@ == lossy_text(self@),
            valid_utf8(self@) ==> r@ == decode_utf8(self@),
    {
        from_utf8_lossy(self.bytes.as_slice())
    }

    /// Whether the bytes are UTF-8.
    pub fn is_text(&self) -> (r: bool)
        ensures
            r == valid_utf8(self@),
    {
        is_utf8(self.bytes.as_slice())
    }

    /// Whether the path begins with `prefix`, character by character.
    pub fn begins(&self, prefix: &str) -> (r: bool)
        ensures
            r == begins_with(self@, prefix@),
    {
        let p: &[u8] = prefix.as_bytes();
        if p.len() > self.bytes.len() {
            return false;
        }
        let mut i: usize = 0;
        while i < p.len()
            invariant
                i <= p.len() <= self.bytes.len(),
                p@ == encode_utf8(prefix@),
                forall|j: int| 0 <= j < i ==> p@[j] == self.bytes@[j],
            decreases p.len() - i,
        {
            if p[i] != self.bytes[i] {
                assert(self@.take(p@.len() as int)[i as int] == self@[i as int]);
                return false;
            }
            i = i + 1;
        }
        assert(p@ =~= self@.take(p@.len() as int));
        true
    }

    /// Whether the path ends with `suffix`, character by character.
    pub fn ends(&self, suffix: &str) -> (r: bool)
        ensures
            r == ends_with(self@, suffix@),
    {
        let p: &[u8] = suffix.as_bytes();
        if p.len() > self.bytes.len() {
            return false;
        }
        let skip: usize = self.bytes.len() - p.len();
        let mut i: usize = 0;
        while i < p.len()
            invariant
                i <= p.len() <= self.bytes.len(),
                skip == self.bytes.len() - p.len(),
                p@ == encode_utf8(suffix@),
                forall|j: int| 0 <= j < i ==> p@[j] == self.bytes@[skip + j],
            decreases p.len() - i,
        {
            if p[i] != self.bytes[skip + i] {
                assert(self@.subrange(skip as int, self@.len() as int)[i as int] == self@[skip
                    + i]);
                return false;
            }
            i = i + 1;
        }
        assert(p@ =~= self@.subrange(skip as int, self@.len() as int));
        true
    }

    /// The names along the path.
    fn names(&self) -> (r: Vec<Vec<u8>>)
        ensures
            byte_seqs(r@) == names(self@),
    {
        let mut found: Vec<Vec<u8>> = Vec::new();
        let mut piece: Vec<u8> = Vec::new();
        let mut i: usize = 0;
        assert(byte_seqs(found@) =~= closed_names(self@.take(0)));
        assert(piece@ =~= tail(self@.take(0)));
        while i < self.bytes.len()
            invariant
                i <= self.bytes.len(),
                byte_seqs(found@) == closed_names(self@.take(i as int)),
                piece@ == tail(self@.take(i as int)),
            decreases self.bytes.len() - i,
        {
            let b: u8 = self.bytes[i];
            proof {
                let next = self@.take(i + 1);
                assert(next.drop_last() =~= self@.take(i as int));
                assert(next.last() == b);
            }
            if b == SLASH {
                put_piece(&mut found, piece);
                piece = Vec::new();
            } else {
                piece.push(b);
            }
            i = i + 1;
            assert(piece@ =~= tail(self@.take(i as int)));
        }
        assert(self@.take(i as int) =~= self@);
        put_piece(&mut found, piece);
        found
    }

    /// The mark of the path.
    pub fn mark(&self) -> (r: u64)
        ensures
            r == names_mark(names(self@)),
    {
        let pieces: Vec<Vec<u8>> = self.names();
        let ghost all = names(self@);
        let mut mark: u64 = 0;
        let mut i: usize = 0;
        while i < pieces.len()
            invariant
                i <= pieces.len(),
                byte_seqs(pieces@) == all,
                mark < MARK_PRIME,
                mark == names_mark(all.take(i as int)),
            decreases pieces.len() - i,
        {
            let piece: &Vec<u8> = &pieces[i];
            let ghost start = mark as nat;
            let mut j: usize = 0;
            assert(piece@.take(0) =~= seq![]);
            while j < piece.len()
                invariant
                    j <= piece.len(),
                    mark < MARK_PRIME,
                    mark == piece_mark(start, piece@.take(j as int)),
                decreases piece.len() - j,
            {
                assert(piece@.take(j + 1).drop_last() =~= piece@.take(j as int));
                mark = (mark * MARK_FACTOR + piece[j] as u64 + 1) % MARK_PRIME;
                j = j + 1;
            }
            assert(piece@.take(j as int) =~= piece@);
            assert(all.take(i + 1).drop_last() =~= all.take(i as int));
            assert(all[i as int] == piece@);
            mark = mark * MARK_FACTOR % MARK_PRIME;
            i = i + 1;
        }
        assert(all.take(i as int) =~= all);
        mark
    }

    /// Whether both spell one path.
    pub fn same(&self, other: &FilePath) -> (r: bool)
        ensures
            r == same_path(self@, other@),
    {
        let a_rooted: bool = self.bytes.len() > 0 && self.bytes[0] == SLASH;
        let b_rooted: bool = other.bytes.len() > 0 && other.bytes[0] == SLASH;
        let a_here: bool = self.bytes.len() > 0 && self.bytes[0] == DOT && (self.bytes.len() == 1
            || self.bytes[1] == SLASH);
        let b_here: bool = other.bytes.len() > 0 && other.bytes[0] == DOT && (other.bytes.len()
            == 1 || other.bytes[1] == SLASH);
        if a_rooted != b_rooted || a_here != b_here {
            return false;
        }
        let a: Vec<Vec<u8>> = self.names();
        let b: Vec<Vec<u8>> = other.names();
        assert(names(self@).len() == a.len() && names(other@).len() == b.len());
        if a.len() != b.len() {
            return false;
        }
        let mut i: usize = 0;
        while i < a.len()
            invariant
                i <= a.len(),
                a.len() == b.len(),
                byte_seqs(a@) == names(self@),
                byte_seqs(b@) == names(other@),
                forall|j: int| 0 <= j < i ==> a[j]@ == b[j]@,
            decreases a.len() - i,
        {
            if !same_bytes(&a[i], &b[i]) {
                assert(byte_seqs(a@)[i as int] != byte_seqs(b@)[i as int]);
                return false;
            }
            i = i + 1;
        }
        assert(byte_seqs(a@) =~= byte_seqs(b@));
        true
    }
}

impl Clone for FilePath {
    fn clone(&self) -> (r: FilePath)
        ensures
            r@ == self@,
    {
        FilePath { bytes: copy_bytes(&self.bytes) }
    }
}

} // verus!
