//! What the parts of a path are, and what is left of it when some of them are taken.
use crate::lines::{join, split};
use crate::paths::{
    extension, file_name, file_stem, has_extension, is_absolute, last_dot, lemma_part_places,
    lemma_split_around, lies_under, name_extension, name_stem, part_places, parts, piece_parts,
    relative_to, written, Part,
};
use crate::text::ascii_lowered;
use crate::wording::lemma_split_and_join;
use vstd::prelude::*;

verus! {

// ---------------------------------------------------------------------------
// Pieces
// ---------------------------------------------------------------------------

proof fn lemma_one_piece(s: Seq<char>)
    requires
        !s.contains('/'),
    ensures
        split(s, '/') == seq![s],
    decreases s.len(),
{
    if s.len() == 0 {
        assert(s =~= Seq::<char>::empty());
        assert(split(s, '/') =~= seq![s]);
    } else {
        let front = s.drop_last();
        assert(s[s.len() - 1] != '/');
        if front.contains('/') {
            assert(s[front.index_of('/')] == '/');
        }
        lemma_one_piece(front);
        assert(front.push(s.last()) =~= s);
        assert(split(s, '/') =~= seq![s]);
    }
}

proof fn lemma_join_and_split(pieces: Seq<Seq<char>>)
    requires
        pieces.len() > 0,
        forall|k: int| 0 <= k < pieces.len() ==> !(#[trigger] pieces[k]).contains('/'),
    ensures
        split(join(pieces, seq!['/']), '/') == pieces,
    decreases pieces.len(),
{
    if pieces.len() == 1 {
        lemma_one_piece(pieces[0]);
        assert(seq![pieces[0]] =~= pieces);
    } else {
        let front = pieces.drop_last();
        assert forall|k: int| 0 <= k < front.len() implies !(#[trigger] front[k]).contains('/') by {
            assert(front[k] == pieces[k]);
        }
        lemma_join_and_split(front);
        let a = join(front, seq!['/']);
        let last = pieces.last();
        assert(!pieces[pieces.len() - 1].contains('/'));
        lemma_split_around(a, last);
        lemma_one_piece(last);
        assert(a.push('/') + last =~= join(pieces, seq!['/']));
        assert(front + seq![last] =~= pieces);
    }
}

/// Whether a text is a name in a path: not empty, without a slash, and neither one dot nor
/// two.
pub open spec fn is_name(s: Seq<char>) -> bool {
    s.len() > 0 && !s.contains('/') && s != seq!['.'] && s != seq!['.', '.']
}

proof fn lemma_names_are_parts(names: Seq<Seq<char>>)
    requires
        forall|k: int| 0 <= k < names.len() ==> is_name(#[trigger] names[k]),
    ensures
        piece_parts(names) == names.map_values(|name: Seq<char>| Part::Normal(name)),
    decreases names.len(),
{
    let all = names.map_values(|name: Seq<char>| Part::Normal(name));
    if names.len() == 0 {
        assert(all =~= Seq::<Part>::empty());
    } else {
        let front = names.drop_last();
        assert forall|k: int| 0 <= k < front.len() implies is_name(#[trigger] front[k]) by {
            assert(front[k] == names[k]);
        }
        lemma_names_are_parts(front);
        assert(is_name(names[names.len() - 1]));
        assert(all =~= front.map_values(|name: Seq<char>| Part::Normal(name)).push(
            Part::Normal(names.last()),
        ));
    }
}

proof fn lemma_no_pieces(pieces: Seq<Seq<char>>)
    ensures
        pieces.len() == 0 ==> piece_parts(pieces) == Seq::<Part>::empty(),
        pieces.len() == 1 && pieces[0].len() == 0 ==> piece_parts(pieces) == Seq::<Part>::empty(),
{
    if pieces.len() == 1 && pieces[0].len() == 0 {
        lemma_no_pieces_of(pieces.drop_last());
    }
}

proof fn lemma_no_pieces_of(pieces: Seq<Seq<char>>)
    ensures
        pieces.len() == 0 ==> piece_parts(pieces) == Seq::<Part>::empty(),
{
}

proof fn lemma_absolute_pieces(pieces: Seq<Seq<char>>)
    ensures
        (pieces.len() == 0 || pieces[0] != seq!['.']) ==> piece_parts(
            seq![Seq::<char>::empty()] + pieces,
        ) == piece_parts(pieces),
    decreases pieces.len(),
{
    let none = Seq::<char>::empty();
    let all = seq![none] + pieces;
    if pieces.len() == 0 {
        lemma_no_pieces(all);
        lemma_no_pieces(pieces);
    } else {
        lemma_absolute_pieces(pieces.drop_last());
        assert(all.drop_last() =~= seq![none] + pieces.drop_last());
        assert(all.last() == pieces.last());
        if pieces.len() > 1 {
            assert(pieces.drop_last()[0] == pieces[0]);
        }
    }
}

/// Names with a slash between each two are the parts of a path, one for one; a slash in front
/// makes it begin at the root.
pub proof fn lemma_names_between_slashes_are_parts(names: Seq<Seq<char>>)
    requires
        names.len() > 0,
        forall|k: int| 0 <= k < names.len() ==> is_name(#[trigger] names[k]),
    ensures
        parts(join(names, seq!['/'])) == names.map_values(|name: Seq<char>| Part::Normal(name)),
        parts(seq!['/'] + join(names, seq!['/'])) == seq![Part::Root] + names.map_values(
            |name: Seq<char>| Part::Normal(name),
        ),
{
    let path = join(names, seq!['/']);
    lemma_join_and_split(names);
    lemma_names_are_parts(names);
    assert(is_name(names[0]));
    assert(path.len() > 0 && path[0] == names[0][0]) by {
        lemma_join_begins(names);
    }
    assert(names[0].contains(names[0][0]));
    assert(!is_absolute(path));
    let full = seq!['/'] + path;
    assert(full =~= Seq::<char>::empty().push('/') + path);
    lemma_split_around(Seq::empty(), path);
    lemma_one_piece(Seq::empty());
    assert(split(full, '/') =~= seq![Seq::<char>::empty()] + names);
    lemma_absolute_pieces(names);
}

proof fn lemma_join_begins(names: Seq<Seq<char>>)
    requires
        names.len() > 0,
        names[0].len() > 0,
    ensures
        join(names, seq!['/']).len() >= names[0].len(),
        join(names, seq!['/'])[0] == names[0][0],
    decreases names.len(),
{
    if names.len() > 1 {
        lemma_join_begins(names.drop_last());
        assert(names.drop_last()[0] == names[0]);
    }
}

/// A slash more, a single dot behind the first part and a slash at the end do not count; two
/// dots count as a part of their own.
pub proof fn lemma_empty_parts_do_not_count(path: Seq<char>)
    requires
        path.len() > 0,
    ensures
        parts(path.push('/')) == parts(path),
        parts(path + seq!['/', '.']) == parts(path),
        parts(path + seq!['/', '.', '.']) == parts(path).push(Part::Parent),
        forall|name: Seq<char>| #[trigger]
            is_name(name) ==> parts(path.push('/') + name) == parts(path).push(Part::Normal(name)),
{
    let none = Seq::<char>::empty();
    let dot = seq!['.'];
    let up = seq!['.', '.'];
    lemma_split_and_join(path, '/');
    lemma_with_piece(path, none);
    assert(path.push('/') + none =~= path.push('/'));
    lemma_with_piece(path, dot);
    assert(path.push('/') + dot =~= path + seq!['/', '.']);
    lemma_with_piece(path, up);
    assert(path.push('/') + up =~= path + seq!['/', '.', '.']);
    assert(up.len() == 2 && dot.len() == 1);
    assert(parts(path).push(Part::Parent) =~= parts(path + seq!['/', '.', '.']));
    assert(parts(path.push('/')) =~= parts(path));
    assert(parts(path + seq!['/', '.']) =~= parts(path));
    assert forall|name: Seq<char>| #[trigger] is_name(name) implies parts(path.push('/') + name)
        == parts(path).push(Part::Normal(name)) by {
        lemma_with_piece(path, name);
        assert(parts(path.push('/') + name) =~= parts(path).push(Part::Normal(name)));
    }
}

proof fn lemma_with_piece(path: Seq<char>, piece: Seq<char>)
    requires
        path.len() > 0,
        !piece.contains('/'),
    ensures
        split(path.push('/') + piece, '/') == split(path, '/').push(piece),
        is_absolute(path.push('/') + piece) == is_absolute(path),
        split(path, '/').push(piece).drop_last() == split(path, '/'),
        split(path, '/').push(piece).len() > 1,
{
    lemma_split_around(path, piece);
    lemma_one_piece(piece);
    lemma_split_and_join(path, '/');
    assert(split(path, '/') + seq![piece] =~= split(path, '/').push(piece));
    assert(split(path, '/').push(piece).drop_last() =~= split(path, '/'));
    assert((path.push('/') + piece)[0] == path[0]);
}

// ---------------------------------------------------------------------------
// Some parts of a path
// ---------------------------------------------------------------------------

/// The first pieces up to a part have the parts up to it.
proof fn lemma_parts_up_to(pieces: Seq<Seq<char>>, k: int)
    requires
        0 <= k < part_places(pieces).len(),
    ensures
        0 <= part_places(pieces)[k] < pieces.len(),
        piece_parts(pieces.take(part_places(pieces)[k] + 1)) == piece_parts(pieces).take(k + 1),
        piece_parts(pieces.take(part_places(pieces)[k])) == piece_parts(pieces).take(k),
    decreases pieces.len(),
{
    lemma_part_places(pieces);
    let front = pieces.drop_last();
    lemma_part_places(front);
    let places = part_places(pieces);
    if k < part_places(front).len() {
        lemma_parts_up_to(front, k);
        assert(places[k] == part_places(front)[k]);
        assert(front.take(places[k] + 1) =~= pieces.take(places[k] + 1));
        assert(front.take(places[k]) =~= pieces.take(places[k]));
        assert(piece_parts(pieces).take(k + 1) =~= piece_parts(front).take(k + 1));
        assert(piece_parts(pieces).take(k) =~= piece_parts(front).take(k));
    } else {
        assert(places[k] == pieces.len() - 1);
        assert(pieces.take(pieces.len() as int) =~= pieces);
        assert(pieces.take(pieces.len() - 1) =~= front);
        assert(piece_parts(pieces).take(k + 1) =~= piece_parts(pieces));
        assert(piece_parts(pieces).take(k) =~= piece_parts(front));
    }
}

proof fn lemma_parts_of_back(a: Seq<Seq<char>>, b: Seq<Seq<char>>)
    requires
        a.len() > 0,
        b.len() > 0,
        b[0] != seq!['.'],
    ensures
        piece_parts(a + b) == piece_parts(a) + piece_parts(b),
    decreases b.len(),
{
    let front = b.drop_last();
    assert((a + b).drop_last() =~= a + front);
    assert((a + b).last() == b.last());
    if b.len() == 1 {
        assert(a + front =~= a);
        assert(piece_parts(front) =~= Seq::<Part>::empty());
    } else {
        assert(front[0] == b[0]);
        lemma_parts_of_back(a, front);
    }
    assert(piece_parts(a + b) =~= piece_parts(a) + piece_parts(b));
}

/// The parts of a path from one to another, as they are written in it, are these parts.
pub proof fn lemma_written_parts_read_back(path: Seq<char>, from: int, to: int)
    requires
        0 <= from < to <= parts(path).len(),
    ensures
        parts(written(path, from, to)) == parts(path).subrange(from, to),
{
    let pieces = split(path, '/');
    let places = part_places(pieces);
    let all = piece_parts(pieces);
    let sep = seq!['/'];
    lemma_split_and_join(path, '/');
    lemma_part_places(pieces);
    let lead = if is_absolute(path) {
        1int
    } else {
        0int
    };
    if is_absolute(path) {
        let rest = path.skip(1);
        assert(path =~= Seq::<char>::empty().push('/') + rest);
        lemma_split_around(Seq::empty(), rest);
        lemma_one_piece(Seq::empty());
        assert(pieces[0].len() == 0);
    }
    if to <= lead {
        let root = seq!['/'];
        assert(root =~= Seq::<char>::empty().push('/') + Seq::<char>::empty());
        lemma_split_around(Seq::empty(), Seq::empty());
        lemma_one_piece(Seq::empty());
        let two = split(root, '/');
        assert(two =~= seq![Seq::<char>::empty(), Seq::<char>::empty()]);
        lemma_no_pieces(two.drop_last());
        assert(parts(root) =~= seq![Part::Root]);
        assert(parts(path).subrange(from, to) =~= seq![Part::Root]);
    } else {
        let last = places[to - 1 - lead];
        lemma_parts_up_to(pieces, to - 1 - lead);
        let first = if from < lead {
            0
        } else {
            places[from - lead]
        };
        if from >= lead {
            lemma_parts_up_to(pieces, from - lead);
            if from < to - 1 {
                assert(places[from - lead] < places[to - 1 - lead]);
            }
        }
        let some = pieces.subrange(first, last + 1);
        assert forall|k: int| 0 <= k < some.len() implies !(#[trigger] some[k]).contains('/') by {
            assert(some[k] == pieces[first + k]);
        }
        lemma_join_and_split(some);
        let text = join(some, sep);
        let upto = pieces.take(last + 1);
        if first == 0 {
            assert(some =~= upto);
            if from < lead {
                assert(some[0].len() == 0 && some.len() > 1) by {
                    assert(piece_parts(upto).len() > 0);
                    assert(upto[0] == pieces[0]);
                    lemma_no_pieces(upto);
                }
                lemma_join_absolute(some);
                assert(parts(text) =~= parts(path).subrange(from, to));
            } else {
                assert(piece_parts(pieces.take(0)) == all.take(from - lead));
                lemma_no_pieces(pieces.take(0));
                assert(all.take(from - lead).len() == from - lead);
                assert(from == lead);
                lemma_first_piece(pieces, first);
                if is_absolute(path) {
                    assert(false);
                }
                lemma_join_begins(some);
                assert(some[0].contains(some[0][0]));
                assert(parts(text) =~= parts(path).subrange(from, to));
            }
        } else {
            assert(from >= lead);
            lemma_first_piece(pieces, first);
            let a = pieces.take(first);
            assert(a + some =~= upto);
            lemma_parts_of_back(a, some);
            lemma_join_begins(some);
            assert(some[0].contains(some[0][0]));
            assert(!is_absolute(text));
            let k = piece_parts(a).len() as int;
            assert(k == from - lead);
            assert(piece_parts(some) =~= piece_parts(upto).skip(k));
            assert(parts(text) =~= parts(path).subrange(from, to));
        }
    }
}

proof fn lemma_first_piece(pieces: Seq<Seq<char>>, at: int)
    requires
        part_places(pieces).contains(at),
    ensures
        0 <= at < pieces.len(),
        pieces[at].len() > 0,
        at > 0 ==> pieces[at] != seq!['.'],
    decreases pieces.len(),
{
    if pieces.len() > 0 {
        let front = pieces.drop_last();
        let k = part_places(pieces).index_of(at);
        lemma_part_places(front);
        lemma_part_places(pieces);
        if k < part_places(front).len() {
            assert(part_places(front)[k] == at);
            assert(part_places(front).contains(at));
            lemma_first_piece(front, at);
        }
    }
}

proof fn lemma_join_absolute(pieces: Seq<Seq<char>>)
    requires
        pieces.len() > 1,
        pieces[0].len() == 0,
    ensures
        is_absolute(join(pieces, seq!['/'])),
    decreases pieces.len(),
{
    let front = pieces.drop_last();
    if pieces.len() == 2 {
        assert(join(front, seq!['/']) == front[0]);
        assert(join(pieces, seq!['/'])[0] == '/');
    } else {
        assert(front[0] == pieces[0]);
        lemma_join_absolute(front);
    }
}

/// What a path is from a directory that it lies under are the parts behind those of the
/// directory; any other path is left as it is.
pub proof fn lemma_relative_paths_keep_the_rest(path: Seq<char>, base: Seq<char>)
    ensures
        lies_under(parts(path), parts(base)) && parts(base).len() < parts(path).len() ==> parts(
            relative_to(path, base),
        ) == parts(path).skip(parts(base).len() as int),
        parts(path) == parts(base) ==> relative_to(path, base).len() == 0,
        !lies_under(parts(path), parts(base)) ==> relative_to(path, base) == path,
{
    let n = parts(base).len() as int;
    let m = parts(path).len() as int;
    if lies_under(parts(path), parts(base)) && n < m {
        lemma_written_parts_read_back(path, n, m);
        assert(parts(path).subrange(n, m) =~= parts(path).skip(n));
    }
    if parts(path) == parts(base) {
        assert(parts(path).take(n) =~= parts(path));
    }
}

// ---------------------------------------------------------------------------
// Names and extensions
// ---------------------------------------------------------------------------

proof fn lemma_last_dot(name: Seq<char>, at: int)
    requires
        0 <= at <= name.len(),
        at < name.len() ==> name[at] == '.',
        forall|i: int| at < i < name.len() ==> #[trigger] name[i] != '.',
        at == name.len() ==> forall|i: int| 0 <= i < name.len() ==> #[trigger] name[i] != '.',
    ensures
        last_dot(name) == at,
    decreases name.len(),
{
    if name.len() > 0 {
        let front = name.drop_last();
        let last = name.len() - 1;
        if at < last {
            assert(name[last] != '.');
            assert forall|i: int| at < i < front.len() implies #[trigger] front[i] != '.' by {
                assert(front[i] == name[i]);
            }
            lemma_last_dot(front, at);
        } else if at == name.len() {
            assert(name[last] != '.');
            assert forall|i: int| 0 <= i < front.len() implies #[trigger] front[i] != '.' by {
                assert(front[i] == name[i]);
            }
            lemma_last_dot(front, front.len() as int);
        }
    }
}

/// The extension of a name is what follows its last dot, and its stem is what stands in front
/// of it. A name without a dot has no extension, nor has one whose only dot is in front.
pub proof fn lemma_extensions_follow_the_last_dot(stem: Seq<char>, ext: Seq<char>)
    requires
        !ext.contains('.'),
    ensures
        stem.len() > 0 ==> name_extension(stem + seq!['.'] + ext) == Some(ext) && name_stem(
            stem + seq!['.'] + ext,
        ) == stem,
        name_extension(ext) is None && name_stem(ext) == ext,
        name_extension(seq!['.'] + ext) is None && name_stem(seq!['.'] + ext) == seq!['.'] + ext,
{
    let name = stem + seq!['.'] + ext;
    assert(name[stem.len() as int] == '.');
    assert forall|i: int| stem.len() < i < name.len() implies #[trigger] name[i] != '.' by {
        assert(name[i] == ext[i - stem.len() - 1]);
    }
    lemma_last_dot(name, stem.len() as int);
    assert(name.skip(stem.len() as int + 1) =~= ext);
    assert(name.take(stem.len() as int) =~= stem);
    lemma_last_dot(ext, ext.len() as int);
    let hidden = seq!['.'] + ext;
    assert(hidden[0] == '.');
    assert forall|i: int| 0 < i < hidden.len() implies #[trigger] hidden[i] != '.' by {
        assert(hidden[i] == ext[i - 1]);
    }
    lemma_last_dot(hidden, 0);
}

/// The name of a file is the last part of its path, if that is a name; its extension and its
/// stem are those of the name, and the case of an extension does not count.
pub proof fn lemma_files_are_named_by_their_last_part(path: Seq<char>, wanted: Seq<char>)
    ensures
        parts(path).len() > 0 ==> (parts(path).last() matches Part::Normal(name) ==> file_name(path)
            == Some(name) && extension(path) == name_extension(name) && file_stem(path) == Some(
            name_stem(name),
        )),
        parts(path).len() == 0 || parts(path).last() !is Normal ==> file_name(path) is None
            && extension(path) is None && file_stem(path) is None,
        has_extension(path, wanted) <==> (extension(path) matches Some(ext) && ascii_lowered(ext)
            == ascii_lowered(wanted)),
{
}

} // verus!
