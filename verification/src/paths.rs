//! Slash-separated paths.
//!
//! A path is read as the sequence of its parts: an optional root, and what stands
//! between the slashes. Empty parts say nothing, nor does a single dot, except at
//! the front of a relative path.
use crate::lines::{join, joined, split, split_at};
use crate::text::{ascii_lowercase, ascii_lowered, chars_of, copy, same, slice_text, texts};
use vstd::prelude::*;

verus! {

/// A part of a path.
pub enum Part {
    Root,
    Cur,
    Parent,
    Normal(Seq<char>),
}

/// A part of a path as it is held at run time.
#[derive(Debug)]
pub enum PathPart {
    Root,
    Cur,
    Parent,
    Normal(String),
}

impl View for PathPart {
    type V = Part;

    open spec fn view(&self) -> Part {
        match self {
            PathPart::Root => Part::Root,
            PathPart::Cur => Part::Cur,
            PathPart::Parent => Part::Parent,
            PathPart::Normal(name) => Part::Normal(name@),
        }
    }
}

/// The model of a vector of parts.
pub open spec fn part_models(v: Seq<PathPart>) -> Seq<Part> {
    v.map_values(|p: PathPart| p@)
}

/// Whether a path begins at the root.
pub open spec fn is_absolute(path: Seq<char>) -> bool {
    path.len() > 0 && path[0] == '/'
}

/// The parts that the pieces between the slashes stand for.
pub open spec fn piece_parts(pieces: Seq<Seq<char>>) -> Seq<Part>
    decreases pieces.len(),
{
    if pieces.len() == 0 {
        Seq::empty()
    } else {
        let before = piece_parts(pieces.drop_last());
        let piece = pieces.last();
        if piece.len() == 0 {
            before
        } else if piece == seq!['.'] {
            if pieces.len() == 1 {
                before.push(Part::Cur)
            } else {
                before
            }
        } else if piece == seq!['.', '.'] {
            before.push(Part::Parent)
        } else {
            before.push(Part::Normal(piece))
        }
    }
}

/// The parts of a path.
pub open spec fn parts(path: Seq<char>) -> Seq<Part> {
    if is_absolute(path) {
        seq![Part::Root] + piece_parts(split(path, '/'))
    } else {
        piece_parts(split(path, '/'))
    }
}

/// How a part other than the root is written.
pub open spec fn part_text(part: Part) -> Seq<char> {
    match part {
        Part::Root => Seq::empty(),
        Part::Cur => seq!['.'],
        Part::Parent => seq!['.', '.'],
        Part::Normal(name) => name,
    }
}

/// Which of the pieces between the slashes stand for a part.
pub open spec fn part_places(pieces: Seq<Seq<char>>) -> Seq<int>
    decreases pieces.len(),
{
    if pieces.len() == 0 {
        Seq::empty()
    } else {
        let before = part_places(pieces.drop_last());
        if piece_parts(pieces).len() > piece_parts(pieces.drop_last()).len() {
            before.push(pieces.len() - 1)
        } else {
            before
        }
    }
}

/// The parts of a path from one to another, as they are written in it: what stands between
/// two of them stays as it is, what stands in front of the first and behind the last is left
/// out.
pub open spec fn written(path: Seq<char>, from: int, to: int) -> Seq<char> {
    let pieces = split(path, '/');
    let places = part_places(pieces);
    let lead = if is_absolute(path) {
        1int
    } else {
        0int
    };
    if from >= to {
        Seq::empty()
    } else if to <= lead {
        seq!['/']
    } else {
        let first = if from < lead {
            0
        } else {
            places[from - lead]
        };
        join(pieces.subrange(first, places[to - 1 - lead] + 1), seq!['/'])
    }
}

/// A path with another one below it; an absolute one stands for itself.
pub open spec fn joined_path(base: Seq<char>, path: Seq<char>) -> Seq<char> {
    if is_absolute(path) || base.len() == 0 {
        path
    } else if base.last() == '/' {
        base + path
    } else {
        base.push('/') + path
    }
}

/// Whether `path` is `base` or lies below it, part by part.
pub open spec fn lies_under(path: Seq<Part>, base: Seq<Part>) -> bool {
    base.len() <= path.len() && path.take(base.len() as int) == base
}

/// What is left of a path below `base`.
pub open spec fn below(path: Seq<char>, base: Seq<char>) -> Option<Seq<Part>> {
    if lies_under(parts(path), parts(base)) {
        Some(parts(path).skip(parts(base).len() as int))
    } else {
        None
    }
}

/// A path as it is written from `base`: the parts below it, or the path as it is where it
/// does not lie there.
pub open spec fn relative_to(path: Seq<char>, base: Seq<char>) -> Seq<char> {
    if lies_under(parts(path), parts(base)) {
        written(path, parts(base).len() as int, parts(path).len() as int)
    } else {
        path
    }
}

/// The name that a path ends with.
pub open spec fn file_name(path: Seq<char>) -> Option<Seq<char>> {
    let all = parts(path);
    if all.len() > 0 && all.last() is Normal {
        Some(all.last()->Normal_0)
    } else {
        None
    }
}

/// The position of the last dot, the length of the text where there is none.
pub open spec fn last_dot(name: Seq<char>) -> int
    decreases name.len(),
{
    if name.len() == 0 {
        0
    } else if name.last() == '.' {
        name.len() - 1
    } else if last_dot(name.drop_last()) < name.len() - 1 {
        last_dot(name.drop_last())
    } else {
        name.len() as int
    }
}

/// What follows the last dot of a name; a dot in front says nothing.
pub open spec fn name_extension(name: Seq<char>) -> Option<Seq<char>> {
    if 0 < last_dot(name) < name.len() {
        Some(name.skip(last_dot(name) + 1))
    } else {
        None
    }
}

/// A name without its extension.
pub open spec fn name_stem(name: Seq<char>) -> Seq<char> {
    if 0 < last_dot(name) < name.len() {
        name.take(last_dot(name))
    } else {
        name
    }
}

/// The extension of the name that a path ends with.
pub open spec fn extension(path: Seq<char>) -> Option<Seq<char>> {
    match file_name(path) {
        Some(name) => name_extension(name),
        None => None,
    }
}

/// The name that a path ends with, without its extension.
pub open spec fn file_stem(path: Seq<char>) -> Option<Seq<char>> {
    match file_name(path) {
        Some(name) => Some(name_stem(name)),
        None => None,
    }
}

/// Whether a path has this extension, in upper or lower case.
pub open spec fn has_extension(path: Seq<char>, wanted: Seq<char>) -> bool {
    match extension(path) {
        Some(ext) => ascii_lowered(ext) == ascii_lowered(wanted),
        None => false,
    }
}

// ---------------------------------------------------------------------------
// At run time
// ---------------------------------------------------------------------------

/// Whether a path begins at the root.
pub fn begins_at_root(path: &str) -> (r: bool)
    ensures
        r == is_absolute(path@),
{
    let chars = chars_of(path);
    chars.len() > 0 && chars[0] == '/'
}

/// The parts of a path.
pub fn parts_of(path: &str) -> (out: Vec<PathPart>)
    ensures
        part_models(out@) == parts(path@),
{
    let pieces = split_at(path, '/');
    let ghost all = texts(pieces@);
    let mut out: Vec<PathPart> = Vec::new();
    let ghost mut lead = Seq::<Part>::empty();
    if begins_at_root(path) {
        out.push(PathPart::Root);
        proof {
            lead = seq![Part::Root];
        }
    }
    let mut i: usize = 0;
    assert(part_models(out@) =~= lead + piece_parts(all.take(0)));
    proof {
        reveal_strlit(".");
        reveal_strlit("..");
        assert("."@ =~= seq!['.']);
        assert(".."@ =~= seq!['.', '.']);
    }
    while i < pieces.len()
        invariant
            i <= pieces.len(),
            all == texts(pieces@),
            "."@ == seq!['.'],
            ".."@ == seq!['.', '.'],
            part_models(out@) == lead + piece_parts(all.take(i as int)),
        decreases pieces.len() - i,
    {
        assert(all.take(i + 1).drop_last() =~= all.take(i as int));
        let ghost before = part_models(out@);
        let piece = pieces[i].as_str();
        if piece.is_empty() {
        } else if same(piece, ".") {
            if i == 0 {
                out.push(PathPart::Cur);
                assert(part_models(out@) =~= before.push(Part::Cur));
            }
        } else if same(piece, "..") {
            out.push(PathPart::Parent);
            assert(part_models(out@) =~= before.push(Part::Parent));
        } else {
            out.push(PathPart::Normal(copy(piece)));
            assert(part_models(out@) =~= before.push(Part::Normal(piece@)));
        }
        assert(part_models(out@) =~= lead + piece_parts(all.take(i + 1)));
        i = i + 1;
    }
    assert(all.take(i as int) =~= all);
    assert(part_models(out@) =~= parts(path@));
    out
}

pub proof fn lemma_part_places(pieces: Seq<Seq<char>>)
    ensures
        part_places(pieces).len() == piece_parts(pieces).len(),
        forall|k: int|
            0 <= k < part_places(pieces).len() ==> 0 <= #[trigger] part_places(pieces)[k]
                < pieces.len(),
        forall|j: int, k: int|
            0 <= j < k < part_places(pieces).len() ==> #[trigger] part_places(pieces)[j]
                < #[trigger] part_places(pieces)[k],
    decreases pieces.len(),
{
    if pieces.len() > 0 {
        lemma_part_places(pieces.drop_last());
    }
}

/// Which of the pieces between the slashes stand for a part.
fn places_of(pieces: &Vec<String>) -> (out: Vec<usize>)
    ensures
        out@.map_values(|n: usize| n as int) == part_places(texts(pieces@)),
{
    let ghost all = texts(pieces@);
    let mut out: Vec<usize> = Vec::new();
    let mut i: usize = 0;
    assert(out@.map_values(|n: usize| n as int) =~= part_places(all.take(0)));
    proof {
        reveal_strlit(".");
        assert("."@ =~= seq!['.']);
    }
    while i < pieces.len()
        invariant
            i <= pieces.len(),
            all == texts(pieces@),
            "."@ == seq!['.'],
            out@.map_values(|n: usize| n as int) == part_places(all.take(i as int)),
        decreases pieces.len() - i,
    {
        assert(all.take(i + 1).drop_last() =~= all.take(i as int));
        assert(all.take(i + 1).last() == pieces@[i as int]@);
        let piece = pieces[i].as_str();
        if !piece.is_empty() && (i == 0 || !same(piece, ".")) {
            let ghost before = out@.map_values(|n: usize| n as int);
            out.push(i);
            assert(out@.map_values(|n: usize| n as int) =~= before.push(i as int));
        }
        i = i + 1;
    }
    assert(all.take(i as int) =~= all);
    out
}

/// The parts of a path from one to another, as they are written in it.
pub fn written_parts(path: &str, from: usize, to: usize) -> (out: String)
    requires
        to <= parts(path@).len(),
    ensures
        out@ == written(path@, from as int, to as int),
{
    if from >= to {
        return String::new();
    }
    let pieces = split_at(path, '/');
    let places = places_of(&pieces);
    let ghost all = texts(pieces@);
    let ghost model = part_places(all);
    proof {
        lemma_part_places(all);
        assert(model == places@.map_values(|n: usize| n as int));
        assert(model.len() == places.len());
        reveal_strlit("/");
        assert("/"@ =~= seq!['/']);
    }
    let lead: usize = if begins_at_root(path) {
        1
    } else {
        0
    };
    if to <= lead {
        let out = copy("/");
        assert(out@ =~= seq!['/']);
        return out;
    }
    let first: usize = if from < lead {
        0
    } else {
        places[from - lead]
    };
    let last: usize = places[to - 1 - lead];
    proof {
        assert(model[to - 1 - lead] == last as int);
        if from >= lead {
            assert(model[from - lead] == first as int);
        }
    }
    let mut kept: Vec<String> = Vec::new();
    let mut i: usize = first;
    assert(texts(kept@) =~= all.subrange(first as int, first as int));
    while i <= last
        invariant
            first <= i <= last + 1,
            last < pieces.len(),
            all == texts(pieces@),
            texts(kept@) == all.subrange(first as int, i as int),
        decreases last + 1 - i,
    {
        let ghost before = texts(kept@);
        kept.push(pieces[i].clone());
        assert(texts(kept@) =~= before.push(all[i as int]));
        assert(texts(kept@) =~= all.subrange(first as int, i + 1));
        i = i + 1;
    }
    joined(&kept, "/")
}

/// A path with another one below it.
pub fn join_path(base: &str, path: &str) -> (out: String)
    ensures
        out@ == joined_path(base@, path@),
{
    if begins_at_root(path) || base.is_empty() {
        return copy(path);
    }
    let chars = chars_of(base);
    let mut out = copy(base);
    if chars[chars.len() - 1] != '/' {
        out.push('/');
    }
    out.append(path);
    out
}

/// Whether two parts are the same.
fn same_part(a: &PathPart, b: &PathPart) -> (r: bool)
    ensures
        r == (a@ == b@),
{
    match (a, b) {
        (PathPart::Root, PathPart::Root) => true,
        (PathPart::Cur, PathPart::Cur) => true,
        (PathPart::Parent, PathPart::Parent) => true,
        (PathPart::Normal(x), PathPart::Normal(y)) => same(x.as_str(), y.as_str()),
        _ => false,
    }
}

/// Whether the parts begin with these.
pub fn begins_with(path: &Vec<PathPart>, base: &Vec<PathPart>) -> (r: bool)
    ensures
        r == lies_under(part_models(path@), part_models(base@)),
{
    if base.len() > path.len() {
        return false;
    }
    let mut i: usize = 0;
    while i < base.len()
        invariant
            i <= base.len() <= path.len(),
            forall|k: int|
                0 <= k < i ==> #[trigger] part_models(path@)[k] == part_models(base@)[k],
        decreases base.len() - i,
    {
        if !same_part(&path[i], &base[i]) {
            assert(part_models(path@).take(base.len() as int)[i as int] != part_models(
                base@,
            )[i as int]);
            return false;
        }
        i = i + 1;
    }
    assert(part_models(path@).take(base.len() as int) =~= part_models(base@));
    true
}

/// The parts of a path below `base`, if it lies there.
pub fn parts_below(path: &str, base: &str) -> (r: Option<Vec<PathPart>>)
    ensures
        match r {
            Some(rest) => below(path@, base@) == Some(part_models(rest@)),
            None => below(path@, base@) is None,
        },
{
    let mut all = parts_of(path);
    let front = parts_of(base);
    if !begins_with(&all, &front) {
        return None;
    }
    let ghost model = part_models(all@);
    let rest = all.split_off(front.len());
    assert(part_models(rest@) =~= model.skip(front.len() as int));
    Some(rest)
}

/// A path as it is written from `base`.
pub fn path_from(path: &str, base: &str) -> (out: String)
    ensures
        out@ == relative_to(path@, base@),
{
    let all = parts_of(path);
    let front = parts_of(base);
    proof {
        assert(part_models(all@).len() == all.len());
        assert(part_models(front@).len() == front.len());
    }
    if !begins_with(&all, &front) {
        return copy(path);
    }
    written_parts(path, front.len(), all.len())
}

/// The name that a path ends with.
pub fn name_of(path: &str) -> (r: Option<String>)
    ensures
        match r {
            Some(name) => file_name(path@) == Some(name@),
            None => file_name(path@) is None,
        },
{
    let mut all = parts_of(path);
    let ghost model = part_models(all@);
    match all.pop() {
        Some(last) => {
            assert(model.last() == last@);
            match last {
                PathPart::Normal(name) => Some(name),
                _ => None,
            }
        },
        None => None,
    }
}

/// The position of the last dot, the length of the name where there is none.
fn dot_in(chars: &Vec<char>) -> (at: usize)
    ensures
        at == last_dot(chars@),
        at <= chars.len(),
{
    let mut at: usize = 0;
    let mut i: usize = 0;
    while i < chars.len()
        invariant
            at <= i <= chars.len(),
            at == last_dot(chars@.take(i as int)),
        decreases chars.len() - i,
    {
        assert(chars@.take(i + 1).drop_last() =~= chars@.take(i as int));
        if chars[i] == '.' {
            at = i;
        } else if at == i {
            at = i + 1;
        }
        i = i + 1;
    }
    assert(chars@.take(i as int) =~= chars@);
    at
}

/// The extension of the name that a path ends with.
pub fn extension_of(path: &str) -> (r: Option<String>)
    ensures
        match r {
            Some(ext) => extension(path@) == Some(ext@),
            None => extension(path@) is None,
        },
{
    match name_of(path) {
        Some(name) => {
            let chars = chars_of(name.as_str());
            let at: usize = dot_in(&chars);
            if 0 < at && at < chars.len() {
                let ext = slice_text(&chars, at + 1, chars.len());
                assert(ext@ =~= name@.skip(at + 1));
                Some(ext)
            } else {
                None
            }
        },
        None => None,
    }
}

/// The name that a path ends with, without its extension.
pub fn stem_of(path: &str) -> (r: Option<String>)
    ensures
        match r {
            Some(stem) => file_stem(path@) == Some(stem@),
            None => file_stem(path@) is None,
        },
{
    match name_of(path) {
        Some(name) => {
            let chars = chars_of(name.as_str());
            let at: usize = dot_in(&chars);
            if 0 < at && at < chars.len() {
                let stem = slice_text(&chars, 0, at);
                assert(stem@ =~= name@.take(at as int));
                Some(stem)
            } else {
                Some(name)
            }
        },
        None => None,
    }
}

/// Whether a path has this extension, in upper or lower case.
pub fn ends_in(path: &str, wanted: &str) -> (r: bool)
    ensures
        r == has_extension(path@, wanted@),
{
    match extension_of(path) {
        Some(ext) => same(
            ascii_lowercase(ext.as_str()).as_str(),
            ascii_lowercase(wanted).as_str(),
        ),
        None => false,
    }
}

// ---------------------------------------------------------------------------
// What joining promises
// ---------------------------------------------------------------------------

/// The pieces of two texts with a separator between them are those of both.
pub proof fn lemma_split_around(a: Seq<char>, b: Seq<char>)
    ensures
        split(a.push('/') + b, '/') == split(a, '/') + split(b, '/'),
        split(b, '/').len() > 0,
    decreases b.len(),
{
    let s = a.push('/') + b;
    if b.len() == 0 {
        assert(s =~= a.push('/'));
        assert(s.drop_last() =~= a);
        assert(split(s, '/') =~= split(a, '/') + split(b, '/'));
    } else {
        let front = b.drop_last();
        lemma_split_around(a, front);
        assert(s.drop_last() =~= a.push('/') + front);
        assert(s.last() == b.last());
        assert(split(s, '/') =~= split(a, '/') + split(b, '/'));
    }
}

/// The parts of pieces in a row are those of both halves, where no single dot begins the
/// second one.
proof fn lemma_parts_of_both(a: Seq<Seq<char>>, b: Seq<Seq<char>>)
    requires
        a.len() > 0,
        b.len() > 0 ==> b[0] != seq!['.'],
    ensures
        piece_parts(a + b) == piece_parts(a) + piece_parts(b),
    decreases b.len(),
{
    if b.len() == 0 {
        assert(a + b =~= a);
        assert(piece_parts(a) + piece_parts(b) =~= piece_parts(a));
    } else {
        lemma_parts_of_both(a, b.drop_last());
        assert((a + b).drop_last() =~= a + b.drop_last());
        assert((a + b).last() == b.last());
        assert(piece_parts(a + b) =~= piece_parts(a) + piece_parts(b));
    }
}

/// The places of parts in pieces in a row.
proof fn lemma_places_of_both(a: Seq<Seq<char>>, b: Seq<Seq<char>>)
    requires
        a.len() > 0,
        b.len() > 0 ==> b[0] != seq!['.'],
    ensures
        part_places(a + b) == part_places(a) + part_places(b).map_values(|k: int| k + a.len()),
    decreases b.len(),
{
    let moved = part_places(b).map_values(|k: int| k + a.len());
    if b.len() == 0 {
        assert(a + b =~= a);
        assert(part_places(a) + moved =~= part_places(a));
    } else {
        let front = b.drop_last();
        lemma_places_of_both(a, front);
        lemma_parts_of_both(a, b);
        lemma_parts_of_both(a, front);
        assert((a + b).drop_last() =~= a + front);
        assert(part_places(a + b) =~= part_places(a) + moved);
    }
}

/// A relative path below a base lies there, and what is left of it below the base is what it
/// was; so it is written from the base as it was, but for what stands in front of its first
/// part and behind its last. A path that begins with a single dot loses it.
pub proof fn lemma_joined_path_lies_below(base: Seq<char>, path: Seq<char>)
    requires
        base.len() > 0,
        !is_absolute(path),
        split(path, '/')[0] != seq!['.'],
    ensures
        parts(joined_path(base, path)) == parts(base) + parts(path),
        below(joined_path(base, path), base) == Some(parts(path)),
        relative_to(joined_path(base, path), base) == written(path, 0, parts(path).len() as int),
{
    let full = joined_path(base, path);
    let a = if base.last() == '/' {
        base.drop_last()
    } else {
        base
    };
    assert(full =~= a.push('/') + path);
    lemma_split_around(a, path);
    lemma_split_around(a, Seq::empty());
    lemma_split_around(Seq::empty(), a);
    let front = split(a, '/');
    let pieces = split(path, '/');
    lemma_parts_of_both(front, pieces);
    if base.last() == '/' {
        assert(base =~= a.push('/') + Seq::<char>::empty());
        assert(split(base, '/').drop_last() =~= front);
    }
    assert(piece_parts(split(full, '/')) == piece_parts(split(base, '/')) + parts(path));
    assert(full[0] == base[0]);
    assert(parts(full) =~= parts(base) + parts(path));
    assert(parts(full).take(parts(base).len() as int) =~= parts(base));
    assert(parts(full).skip(parts(base).len() as int) =~= parts(path));
    let n = parts(path).len() as int;
    if n > 0 {
        lemma_places_of_both(front, pieces);
        lemma_part_places(front);
        lemma_part_places(pieces);
        let own = part_places(pieces);
        let places = part_places(front + pieces);
        let k = part_places(front).len() as int;
        assert(places[k] == own[0] + front.len());
        assert(places[k + n - 1] == own[n - 1] + front.len());
        assert(n > 1 ==> own[0] < own[n - 1]);
        assert((front + pieces).subrange(places[k], places[k + n - 1] + 1) =~= pieces.subrange(
            own[0],
            own[n - 1] + 1,
        ));
    }
}

/// Whether one of the paths has these parts.
pub open spec fn has_path(all: Seq<Seq<char>>, path: Seq<char>) -> bool {
    exists|i: int| 0 <= i < all.len() && parts(#[trigger] all[i]) == parts(path)
}

/// Whether no two paths have the same parts.
pub open spec fn are_different_paths(all: Seq<Seq<char>>) -> bool {
    forall|i: int, j: int|
        0 <= i < j < all.len() ==> parts(#[trigger] all[i]) != parts(#[trigger] all[j])
}

/// The paths without those that were there before, in this or another spelling.
pub open spec fn distinct_paths(all: Seq<Seq<char>>) -> Seq<Seq<char>>
    decreases all.len(),
{
    if all.len() == 0 {
        Seq::empty()
    } else {
        let before = distinct_paths(all.drop_last());
        if has_path(before, all.last()) {
            before
        } else {
            before.push(all.last())
        }
    }
}

/// The paths without those that were there before: the same paths, and none of them twice.
pub proof fn lemma_distinct_paths(all: Seq<Seq<char>>)
    ensures
        are_different_paths(distinct_paths(all)),
        forall|path: Seq<char>| #[trigger]
            has_path(distinct_paths(all), path) <==> has_path(all, path),
    decreases all.len(),
{
    if all.len() > 0 {
        let front = all.drop_last();
        let before = distinct_paths(front);
        let kept = distinct_paths(all);
        lemma_distinct_paths(front);
        assert forall|i: int, j: int| 0 <= i < j < kept.len() implies parts(#[trigger] kept[i])
            != parts(#[trigger] kept[j]) by {
            if j < before.len() {
                assert(parts(before[i]) != parts(before[j]));
            } else {
                assert(kept[i] == before[i]);
            }
        }
        assert forall|path: Seq<char>| #[trigger] has_path(kept, path) <==> has_path(
            all,
            path,
        ) by {
            if has_path(front, path) {
                let k = choose|k: int| 0 <= k < front.len() && parts(#[trigger] front[k]) == parts(
                    path,
                );
                assert(all[k] == front[k]);
                assert(has_path(before, path));
                let n = choose|n: int| 0 <= n < before.len() && parts(#[trigger] before[n])
                    == parts(path);
                assert(kept[n] == before[n]);
            }
            if has_path(all, path) && !has_path(front, path) {
                let k = choose|k: int| 0 <= k < all.len() && parts(#[trigger] all[k]) == parts(
                    path,
                );
                if k < front.len() {
                    assert(front[k] == all[k]);
                }
                assert(!has_path(before, path));
                assert(kept[before.len() as int] == all[k]);
            }
            if has_path(kept, path) && !has_path(front, path) {
                let n = choose|n: int| 0 <= n < kept.len() && parts(#[trigger] kept[n]) == parts(
                    path,
                );
                if n < before.len() {
                    assert(kept[n] == before[n]);
                    assert(has_path(before, path));
                }
                assert(all[all.len() - 1] == kept[n]);
            }
        }
    }
}

/// Whether these are the same parts.
pub fn are_same_parts(a: &Vec<PathPart>, b: &Vec<PathPart>) -> (r: bool)
    ensures
        r == (part_models(a@) == part_models(b@)),
{
    proof {
        assert(part_models(a@).len() == a.len());
        assert(part_models(b@).len() == b.len());
        assert(part_models(a@).take(a.len() as int) =~= part_models(a@));
    }
    a.len() == b.len() && begins_with(a, b)
}

/// Whether two paths have the same parts.
pub fn is_same_path(a: &str, b: &str) -> (r: bool)
    ensures
        r == (parts(a@) == parts(b@)),
{
    are_same_parts(&parts_of(a), &parts_of(b))
}

/// The paths without those that were there before, in this or another spelling.
pub fn without_repeated_paths(all: &Vec<String>) -> (out: Vec<String>)
    ensures
        texts(out@) == distinct_paths(texts(all@)),
{
    let ghost model = texts(all@);
    let mut out: Vec<String> = Vec::new();
    let mut i: usize = 0;
    assert(texts(out@) =~= distinct_paths(model.take(0)));
    while i < all.len()
        invariant
            i <= all.len(),
            model == texts(all@),
            texts(out@) == distinct_paths(model.take(i as int)),
        decreases all.len() - i,
    {
        assert(model.take(i + 1).drop_last() =~= model.take(i as int));
        let mut known: bool = false;
        let mut k: usize = 0;
        while k < out.len()
            invariant
                k <= out.len(),
                i < all.len(),
                known == exists|n: int|
                    0 <= n < k && parts(#[trigger] texts(out@)[n]) == parts(all@[i as int]@),
            decreases out.len() - k,
        {
            assert(texts(out@)[k as int] == out@[k as int]@);
            if is_same_path(out[k].as_str(), all[i].as_str()) {
                known = true;
            }
            k = k + 1;
        }
        if !known {
            let ghost before = texts(out@);
            out.push(all[i].clone());
            assert(texts(out@) =~= before.push(model[i as int]));
        }
        i = i + 1;
    }
    assert(model.take(i as int) =~= model);
    out
}

} // verus!
