//! What the paths promise: names are the pieces between slashes, whole and in
//! their order, and nothing else tells two paths apart.
use vstd::prelude::*;

use crate::collect::owners::path_key;
use crate::collect::processes::{inverted, ProcessCollector, ProcessFiles};
use crate::laws::collect::{law_holders_are_attributed, seen_holding};
use crate::paths::{closed_names, names, rooted, same_path, starts_here, tail, with_piece, SLASH};

verus! {

/// A slash ends one list of names and starts the next.
pub proof fn law_names_split_at_slashes(a: Seq<u8>, b: Seq<u8>)
    ensures
        names(a.push(47u8) + b) == names(a) + names(b),
{
    lemma_split(a, b);
    let x = closed_names(b);
    let before = names(a);
    let piece = tail(b);
    assert(with_piece(before + x, piece) =~= before + with_piece(x, piece));
}

proof fn lemma_split(a: Seq<u8>, b: Seq<u8>)
    ensures
        closed_names(a.push(SLASH) + b) == names(a) + closed_names(b),
        tail(a.push(SLASH) + b) == tail(b),
    decreases b.len(),
{
    let x = a.push(SLASH) + b;
    if b.len() == 0 {
        assert(x =~= a.push(SLASH));
        assert(x.drop_last() =~= a);
        assert(names(a) + closed_names(b) =~= names(a));
    } else {
        let c = b.drop_last();
        lemma_split(a, c);
        assert(x.drop_last() =~= a.push(SLASH) + c);
        if b.last() == SLASH {
            let before = names(a);
            let y = closed_names(c);
            assert(with_piece(before + y, tail(c)) =~= before + with_piece(y, tail(c)));
        }
    }
}

/// What holds no slash is one name, whole, unless it is empty or a single
/// dot, which name nothing.
pub proof fn law_a_piece_is_one_name(piece: Seq<u8>)
    requires
        !piece.contains(47u8),
    ensures
        names(piece) == (if piece.len() == 0 || piece == seq![46u8] {
            Seq::<Seq<u8>>::empty()
        } else {
            seq![piece]
        }),
{
    lemma_piece(piece);
    assert(names(piece) =~= (if piece.len() == 0 || piece == seq![46u8] {
        Seq::<Seq<u8>>::empty()
    } else {
        seq![piece]
    }));
}

proof fn lemma_piece(piece: Seq<u8>)
    requires
        !piece.contains(SLASH),
    ensures
        closed_names(piece) == Seq::<Seq<u8>>::empty(),
        tail(piece) == piece,
    decreases piece.len(),
{
    if piece.len() > 0 {
        let init = piece.drop_last();
        assert(piece[piece.len() - 1] == piece.last());
        assert(!init.contains(SLASH)) by {
            if init.contains(SLASH) {
                let i = choose|i: int| 0 <= i < init.len() && init[i] == SLASH;
                assert(piece[i] == SLASH);
            }
        }
        lemma_piece(init);
        assert(tail(piece) =~= piece);
    } else {
        assert(tail(piece) =~= piece);
    }
}

/// Names with a slash between each two.
pub open spec fn joined(pieces: Seq<Seq<u8>>) -> Seq<u8>
    decreases pieces.len(),
{
    if pieces.len() == 0 {
        seq![]
    } else if pieces.len() == 1 {
        pieces[0]
    } else {
        pieces[0].push(47u8) + joined(pieces.drop_first())
    }
}

/// No slash follows another, none ends the path but the root itself, and no
/// piece is a single dot.
pub open spec fn tidy(path: Seq<u8>) -> bool {
    &&& forall|i: int|
        0 <= i < path.len() - 1 ==> !(#[trigger] path[i] == 47u8 && path[i + 1] == 47u8)
    &&& path.len() > 1 ==> path[path.len() - 1] != 47u8
    &&& forall|i: int|
        0 <= i < path.len() && (#[trigger] path[i]) == 46u8 ==> !((i == 0 || path[i - 1] == 47u8)
            && (i == path.len() - 1 || path[i + 1] == 47u8))
}

/// A tidy path is its names with slashes between them, behind one more slash
/// where it starts at the root: no byte of it is lost.
pub proof fn law_names_spell_the_path(path: Seq<u8>)
    requires
        tidy(path),
    ensures
        path == (if path.len() > 0 && path[0] == 47u8 {
            seq![47u8] + joined(names(path))
        } else {
            joined(names(path))
        }),
{
    if path.len() > 0 && path[0] == SLASH {
        let rest = path.skip(1);
        let none = Seq::<u8>::empty();
        assert(none.push(47u8) + rest =~= path);
        law_names_split_at_slashes(none, rest);
        law_a_piece_is_one_name(none);
        assert(names(path) =~= names(rest));
        assert(tidy(rest)) by {
            assert forall|i: int| 0 <= i < rest.len() - 1 implies !(#[trigger] rest[i] == 47u8
                && rest[i + 1] == 47u8) by {
                assert(rest[i] == path[i + 1]);
                assert(rest[i + 1] == path[i + 2]);
            }
            assert forall|i: int| 0 <= i < rest.len() && (#[trigger] rest[i]) == 46u8 implies !((i
                == 0 || rest[i - 1] == 47u8) && (i == rest.len() - 1 || rest[i + 1] == 47u8)) by {
                assert(rest[i] == path[i + 1]);
            }
        }
        if rest.len() > 0 {
            assert(path[0] == 47u8 && path[1] == rest[0]);
            assert(rest[0] != 47u8);
        }
        lemma_spelled(rest);
        assert(path =~= seq![47u8] + rest);
    } else {
        lemma_spelled(path);
    }
}

/// Where the first slash stands, or the end.
spec fn first_slash(path: Seq<u8>) -> int
    decreases path.len(),
{
    if path.len() == 0 || path[0] == SLASH {
        0
    } else {
        1 + first_slash(path.skip(1))
    }
}

proof fn lemma_first_slash(path: Seq<u8>)
    ensures
        0 <= first_slash(path) <= path.len(),
        first_slash(path) < path.len() ==> path[first_slash(path)] == SLASH,
        forall|i: int| 0 <= i < first_slash(path) ==> path[i] != SLASH,
    decreases path.len(),
{
    if path.len() > 0 && path[0] != SLASH {
        let rest = path.skip(1);
        lemma_first_slash(rest);
        assert forall|i: int| 0 <= i < first_slash(path) implies path[i] != SLASH by {
            if i > 0 {
                assert(rest[i - 1] == path[i]);
            }
        }
    }
}

proof fn lemma_spelled(path: Seq<u8>)
    requires
        tidy(path),
        path.len() > 0 ==> path[0] != SLASH,
    ensures
        path == joined(names(path)),
        path.len() > 0 ==> names(path).len() > 0,
    decreases path.len(),
{
    if path.len() == 0 {
        law_a_piece_is_one_name(path);
        assert(path =~= joined(names(path)));
    } else {
        lemma_first_slash(path);
        let at = first_slash(path);
        let piece = path.take(at);
        assert(!piece.contains(47u8));
        assert(piece != seq![46u8]) by {
            if piece == seq![46u8] {
                assert(piece[0] == 46u8);
                assert(path[0] == 46u8);
                assert(piece.len() == at && seq![46u8].len() == 1);
            }
        }
        law_a_piece_is_one_name(piece);
        if at == path.len() {
            assert(piece =~= path);
        } else {
            let rest = path.skip(at + 1);
            assert(piece.push(47u8) + rest =~= path);
            law_names_split_at_slashes(piece, rest);
            assert(rest.len() > 0) by {
                if rest.len() == 0 {
                    assert(path[path.len() - 1] == 47u8);
                }
            }
            assert(path[at] == 47u8 && path[at + 1] == rest[0]);
            assert(tidy(rest)) by {
                assert forall|i: int| 0 <= i < rest.len() - 1 implies !(#[trigger] rest[i] == 47u8
                    && rest[i + 1] == 47u8) by {
                    assert(rest[i] == path[i + at + 1]);
                    assert(rest[i + 1] == path[i + at + 2]);
                }
                assert forall|i: int|
                    0 <= i < rest.len() && (#[trigger] rest[i]) == 46u8 implies !((i == 0 || rest[i
                    - 1] == 47u8) && (i == rest.len() - 1 || rest[i + 1] == 47u8)) by {
                    assert(rest[i] == path[i + at + 1]);
                    if i > 0 {
                        assert(rest[i - 1] == path[i + at]);
                    }
                    if i < rest.len() - 1 {
                        assert(rest[i + 1] == path[i + at + 2]);
                    }
                }
            }
            lemma_spelled(rest);
            let all = names(path);
            assert(all =~= seq![piece] + names(rest));
            assert(all[0] == piece);
            assert(all.drop_first() =~= names(rest));
        }
    }
}

/// Two tidy paths are one path only if they are the same bytes.
pub proof fn law_tidy_paths_with_one_key_are_one(a: Seq<u8>, b: Seq<u8>)
    requires
        tidy(a),
        tidy(b),
        path_key(a) == path_key(b),
    ensures
        a == b,
{
    law_names_spell_the_path(a);
    law_names_spell_the_path(b);
}

/// Spelling matters in three ways only: whether a path starts at the root,
/// whether it starts with a dot of its own, and its names.
pub proof fn law_paths_are_told_apart_by_root_dot_and_names(a: Seq<u8>, b: Seq<u8>)
    ensures
        path_key(a) == path_key(b) <==> same_path(a, b),
        same_path(a, b) <==> {
            &&& (a.len() > 0 && a[0] == 47u8) == (b.len() > 0 && b[0] == 47u8)
            &&& (a == seq![46u8] || seq![46u8, 47u8].is_prefix_of(a)) == (b == seq![46u8]
                || seq![46u8, 47u8].is_prefix_of(b))
            &&& names(a) == names(b)
        },
{
    lemma_here(a);
    lemma_here(b);
}

proof fn lemma_here(a: Seq<u8>)
    ensures
        starts_here(a) == (a == seq![46u8] || seq![46u8, 47u8].is_prefix_of(a)),
        rooted(a) == (a.len() > 0 && a[0] == 47u8),
{
    if starts_here(a) {
        if a.len() == 1 {
            assert(a =~= seq![46u8]);
        } else {
            assert(seq![46u8, 47u8] =~= a.take(2));
        }
    }
    if a == seq![46u8] {
        assert(a.len() == 1 && a[0] == 46u8);
    }
    if seq![46u8, 47u8].is_prefix_of(a) {
        assert(a.take(2)[0] == 46u8);
        assert(a.take(2)[1] == 47u8);
    }
}

/// A slash more between two names makes no difference, nor does a dot
/// between slashes.
pub proof fn law_empty_pieces_and_dots_are_ignored(a: Seq<u8>, b: Seq<u8>)
    requires
        a.len() > 0,
    ensures
        same_path(a.push(47u8).push(47u8) + b, a.push(47u8) + b),
        same_path(a.push(47u8).push(46u8).push(47u8) + b, a.push(47u8) + b),
{
    let one = a.push(47u8) + b;
    let two = a.push(47u8).push(47u8) + b;
    let dot = a.push(47u8).push(46u8).push(47u8) + b;
    let none = Seq::<u8>::empty();
    law_names_split_at_slashes(a, b);
    law_names_split_at_slashes(a.push(47u8), b);
    assert(a.push(47u8) + none =~= a.push(47u8));
    law_names_split_at_slashes(a, none);
    law_a_piece_is_one_name(none);
    let here = a.push(47u8).push(46u8);
    law_names_split_at_slashes(here, b);
    assert(a.push(47u8) + seq![46u8] =~= here);
    law_names_split_at_slashes(a, seq![46u8]);
    law_a_piece_is_one_name(seq![46u8]);
    assert(names(two) =~= names(one));
    assert(names(dot) =~= names(one));
    assert(one[0] == a[0] && two[0] == a[0] && dot[0] == a[0]);
    if a.len() == 1 {
        assert(one[1] == 47u8 && two[1] == 47u8 && dot[1] == 47u8);
    } else {
        assert(one[1] == a[1] && two[1] == a[1] && dot[1] == a[1]);
    }
}

/// Where paths are tidy, a process is attributed a path only if it was seen
/// with that very path open, byte for byte.
pub proof fn law_owners_held_the_very_path(
    collector: ProcessCollector,
    tables: Seq<ProcessFiles>,
    path: Seq<u8>,
    pid: u32,
)
    requires
        collector.owners@ == inverted(tables),
        tidy(path),
        forall|t: int, j: int|
            0 <= t < tables.len() && tables[t].files is Some && 0 <= j < tables[t].files->0@.len()
                ==> tidy((#[trigger] tables[t].files->0@[j])@),
        collector.holders(path).contains_key(pid),
    ensures
        exists|t: int, j: int|
            0 <= t < tables.len() && tables[t].pid == pid && tables[t].files is Some && 0 <= j
                < tables[t].files->0@.len() && (#[trigger] tables[t].files->0@[j])@ == path,
{
    law_holders_are_attributed(collector, tables, path, pid);
    assert(seen_holding(tables, path_key(path), pid));
    let (t, j) = choose|t: int, j: int|
        #![trigger tables[t].files->0@[j]]
        0 <= t < tables.len() && tables[t].pid == pid && tables[t].files is Some && 0 <= j
            < tables[t].files->0@.len() && path_key(tables[t].files->0@[j]@) == path_key(path);
    law_tidy_paths_with_one_key_are_one(tables[t].files->0@[j]@, path);
}

} // verus!
