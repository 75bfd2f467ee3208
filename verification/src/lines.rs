//! Trimming text, cutting it into lines, pieces and words, and joining them
//! again.
//!
//! The cutting functions are stated by what the last character adds to the
//! pieces of the text before it.
use crate::text::{chars_of, is_white_space, slice_text, texts};
use vstd::prelude::*;

verus! {

// ---------------------------------------------------------------------------
// Trimming
// ---------------------------------------------------------------------------

/// The text without its leading white space.
pub open spec fn trim_start(s: Seq<char>) -> Seq<char>
    decreases s.len(),
{
    if s.len() > 0 && is_white_space(s[0]) {
        trim_start(s.drop_first())
    } else {
        s
    }
}

/// The text without its trailing white space.
pub open spec fn trim_end(s: Seq<char>) -> Seq<char>
    decreases s.len(),
{
    if s.len() > 0 && is_white_space(s.last()) {
        trim_end(s.drop_last())
    } else {
        s
    }
}

/// The text without leading and trailing white space.
pub open spec fn trim(s: Seq<char>) -> Seq<char> {
    trim_end(trim_start(s))
}

/// The text without the occurrences of `c` that it ends with.
pub open spec fn trim_end_of(s: Seq<char>, c: char) -> Seq<char>
    decreases s.len(),
{
    if s.len() > 0 && s.last() == c {
        trim_end_of(s.drop_last(), c)
    } else {
        s
    }
}

/// The first position at which the text from `from` on is not white space.
pub fn skip_space(chars: &Vec<char>, from: usize) -> (at: usize)
    requires
        from <= chars.len(),
    ensures
        from <= at <= chars.len(),
        trim_start(chars@.skip(from as int)) == chars@.skip(at as int),
        at < chars.len() ==> !is_white_space(chars@[at as int]),
{
    let mut at: usize = from;
    while at < chars.len() && chars[at].is_whitespace()
        invariant
            from <= at <= chars.len(),
            trim_start(chars@.skip(from as int)) == trim_start(chars@.skip(at as int)),
        decreases chars.len() - at,
    {
        assert(chars@.skip(at as int).drop_first() =~= chars@.skip(at + 1));
        at = at + 1;
    }
    at
}

/// The text without its leading white space.
pub fn trimmed_start(s: &str) -> (out: String)
    ensures
        out@ == trim_start(s@),
{
    let chars = chars_of(s);
    let at: usize = skip_space(&chars, 0);
    assert(chars@.skip(0) =~= s@);
    assert(chars@.skip(at as int) =~= chars@.subrange(at as int, chars@.len() as int));
    slice_text(&chars, at, chars.len())
}

/// The end of the text from `from` to `to` without its trailing white space.
pub fn back_over_space(chars: &Vec<char>, from: usize, to: usize) -> (end: usize)
    requires
        from <= to <= chars.len(),
    ensures
        from <= end <= to,
        trim_end(chars@.subrange(from as int, to as int)) == chars@.subrange(
            from as int,
            end as int,
        ),
{
    let mut end: usize = to;
    while end > from && chars[end - 1].is_whitespace()
        invariant
            from <= end <= to <= chars.len(),
            trim_end(chars@.subrange(from as int, to as int)) == trim_end(
                chars@.subrange(from as int, end as int),
            ),
        decreases end,
    {
        assert(chars@.subrange(from as int, end as int).drop_last() =~= chars@.subrange(
            from as int,
            end - 1,
        ));
        end = end - 1;
    }
    end
}

/// The text without its trailing white space.
pub fn trimmed_end(s: &str) -> (out: String)
    ensures
        out@ == trim_end(s@),
{
    let chars = chars_of(s);
    let end: usize = back_over_space(&chars, 0, chars.len());
    assert(chars@.subrange(0, chars@.len() as int) =~= s@);
    slice_text(&chars, 0, end)
}

/// The text without leading and trailing white space.
pub fn trimmed(s: &str) -> (out: String)
    ensures
        out@ == trim(s@),
{
    let chars = chars_of(s);
    let at: usize = skip_space(&chars, 0);
    let end: usize = back_over_space(&chars, at, chars.len());
    assert(chars@.skip(0) =~= s@);
    assert(chars@.skip(at as int) =~= chars@.subrange(at as int, chars@.len() as int));
    slice_text(&chars, at, end)
}

/// The text without the occurrences of `c` that it ends with.
pub fn trimmed_end_of(s: &str, c: char) -> (out: String)
    ensures
        out@ == trim_end_of(s@, c),
{
    let chars = chars_of(s);
    let mut end: usize = chars.len();
    assert(chars@.take(end as int) =~= s@);
    while end > 0 && chars[end - 1] == c
        invariant
            end <= chars.len(),
            trim_end_of(s@, c) == trim_end_of(chars@.take(end as int), c),
        decreases end,
    {
        assert(chars@.take(end as int).drop_last() =~= chars@.take(end - 1));
        end = end - 1;
    }
    assert(chars@.take(end as int) =~= chars@.subrange(0, end as int));
    slice_text(&chars, 0, end)
}

/// Whether nothing is left of the text once it is trimmed.
pub fn is_blank(s: &str) -> (r: bool)
    ensures
        r == (trim(s@).len() == 0),
{
    trimmed(s).as_str().is_empty()
}

// ---------------------------------------------------------------------------
// Line ends
// ---------------------------------------------------------------------------

/// The text with each `\r\n` and each other `\r` turned into `\n`.
pub open spec fn unix_newlines(s: Seq<char>) -> Seq<char>
    decreases s.len(),
{
    if s.len() == 0 {
        s
    } else {
        let before = unix_newlines(s.drop_last());
        if s.last() == '\r' {
            before.push('\n')
        } else if s.last() == '\n' && s.len() > 1 && s[s.len() - 2] == '\r' {
            before
        } else {
            before.push(s.last())
        }
    }
}

/// The text with each `\r\n` and each other `\r` turned into `\n`.
pub fn with_unix_newlines(s: &str) -> (out: String)
    ensures
        out@ == unix_newlines(s@),
{
    let chars = chars_of(s);
    let mut out: String = String::new();
    let mut i: usize = 0;
    while i < chars.len()
        invariant
            i <= chars.len(),
            chars@ == s@,
            out@ == unix_newlines(s@.take(i as int)),
        decreases chars.len() - i,
    {
        let c: char = chars[i];
        assert(s@.take(i + 1).drop_last() =~= s@.take(i as int));
        if c == '\r' {
            out.push('\n');
        } else if c == '\n' && i > 0 && chars[i - 1] == '\r' {
        } else {
            out.push(c);
        }
        i = i + 1;
    }
    assert(s@.take(i as int) =~= s@);
    out
}

// ---------------------------------------------------------------------------
// Cutting at a character
// ---------------------------------------------------------------------------

/// The pieces of the text with `c` added to the last of them.
pub open spec fn extend_last(pieces: Seq<Seq<char>>, c: char) -> Seq<Seq<char>> {
    pieces.drop_last().push(pieces.last().push(c))
}

/// The pieces between the occurrences of `sep`, which belong to no piece.
pub open spec fn split(s: Seq<char>, sep: char) -> Seq<Seq<char>>
    decreases s.len(),
{
    if s.len() == 0 {
        seq![Seq::<char>::empty()]
    } else if s.last() == sep {
        split(s.drop_last(), sep).push(Seq::empty())
    } else {
        extend_last(split(s.drop_last(), sep), s.last())
    }
}

/// The pieces of the text, each up to and with an occurrence of `sep`.
pub open spec fn split_inclusive(s: Seq<char>, sep: char) -> Seq<Seq<char>>
    decreases s.len(),
{
    if s.len() == 0 {
        Seq::empty()
    } else if s.len() == 1 || s[s.len() - 2] == sep {
        split_inclusive(s.drop_last(), sep).push(seq![s.last()])
    } else {
        extend_last(split_inclusive(s.drop_last(), sep), s.last())
    }
}

/// The pieces between the occurrences of `sep`.
pub fn split_at(s: &str, sep: char) -> (out: Vec<String>)
    ensures
        texts(out@) == split(s@, sep),
{
    let chars = chars_of(s);
    let mut out: Vec<String> = Vec::new();
    let mut start: usize = 0;
    let mut i: usize = 0;
    let ghost mut done: Seq<Seq<char>> = Seq::empty();
    assert(split(s@.take(0), sep) =~= done.push(s@.subrange(0, 0))) by {
        assert(s@.subrange(0, 0) =~= Seq::<char>::empty());
    }
    while i < chars.len()
        invariant
            start <= i <= chars.len(),
            chars@ == s@,
            texts(out@) == done,
            split(s@.take(i as int), sep) == done.push(s@.subrange(start as int, i as int)),
        decreases chars.len() - i,
    {
        assert(s@.take(i + 1).drop_last() =~= s@.take(i as int));
        if chars[i] == sep {
            let piece = slice_text(&chars, start, i);
            out.push(piece);
            proof {
                done = done.push(s@.subrange(start as int, i as int));
                assert(texts(out@) =~= done);
                assert(s@.subrange(i + 1, i + 1) =~= Seq::<char>::empty());
            }
            start = i + 1;
        } else {
            proof {
                let before = done.push(s@.subrange(start as int, i as int));
                assert(before.drop_last() =~= done);
                assert(s@.subrange(start as int, i as int).push(s@[i as int]) =~= s@.subrange(
                    start as int,
                    i + 1,
                ));
            }
        }
        i = i + 1;
    }
    assert(s@.take(i as int) =~= s@);
    out.push(slice_text(&chars, start, chars.len()));
    assert(texts(out@) =~= done.push(s@.subrange(start as int, chars.len() as int)));
    out
}

/// The pieces of the text, each up to and with an occurrence of `sep`.
pub fn split_after(s: &str, sep: char) -> (out: Vec<String>)
    ensures
        texts(out@) == split_inclusive(s@, sep),
{
    let chars = chars_of(s);
    let mut out: Vec<String> = Vec::new();
    let mut start: usize = 0;
    let mut i: usize = 0;
    let ghost mut done: Seq<Seq<char>> = Seq::empty();
    while i < chars.len()
        invariant
            start <= i <= chars.len(),
            chars@ == s@,
            texts(out@) == done,
            split_inclusive(s@.take(i as int), sep) == if start < i {
                done.push(s@.subrange(start as int, i as int))
            } else {
                done
            },
            start < i ==> s@[i - 1] != sep,
            0 < start == i ==> s@[i - 1] == sep,
        decreases chars.len() - i,
    {
        let ghost piece = s@.subrange(start as int, i + 1);
        proof {
            assert(s@.take(i + 1).drop_last() =~= s@.take(i as int));
            if start < i {
                assert(done.push(s@.subrange(start as int, i as int)).drop_last() =~= done);
                assert(s@.subrange(start as int, i as int).push(s@[i as int]) =~= piece);
            } else {
                assert(piece =~= seq![s@[i as int]]);
            }
            assert(split_inclusive(s@.take(i + 1), sep) == done.push(piece));
        }
        if chars[i] == sep {
            out.push(slice_text(&chars, start, i + 1));
            proof {
                done = done.push(piece);
                assert(texts(out@) =~= done);
            }
            start = i + 1;
        }
        i = i + 1;
    }
    assert(s@.take(i as int) =~= s@);
    if start < chars.len() {
        out.push(slice_text(&chars, start, chars.len()));
        assert(texts(out@) =~= done.push(s@.subrange(start as int, chars.len() as int)));
    }
    out
}

// ---------------------------------------------------------------------------
// Lines
// ---------------------------------------------------------------------------

/// A piece without the line end, `\n` or `\r\n`, that it closes with.
pub open spec fn chomp(piece: Seq<char>) -> Seq<char> {
    if piece.len() == 0 || piece.last() != '\n' {
        piece
    } else if piece.len() > 1 && piece[piece.len() - 2] == '\r' {
        piece.take(piece.len() - 2)
    } else {
        piece.drop_last()
    }
}

/// The lines of a text, without their line ends.
pub open spec fn lines(s: Seq<char>) -> Seq<Seq<char>> {
    split_inclusive(s, '\n').map_values(|piece: Seq<char>| chomp(piece))
}

/// The lines of a text, without their line ends.
pub fn lines_of(s: &str) -> (out: Vec<String>)
    ensures
        texts(out@) == lines(s@),
{
    let pieces = split_after(s, '\n');
    let mut out: Vec<String> = Vec::new();
    let mut i: usize = 0;
    while i < pieces.len()
        invariant
            i <= pieces.len(),
            out.len() == i,
            forall|k: int| 0 <= k < i ==> out@[k]@ == chomp(#[trigger] pieces@[k]@),
        decreases pieces.len() - i,
    {
        let chars = chars_of(pieces[i].as_str());
        let mut end: usize = chars.len();
        if end > 0 && chars[end - 1] == '\n' {
            end = end - 1;
            if end > 0 && chars[end - 1] == '\r' {
                end = end - 1;
            }
        }
        let line = slice_text(&chars, 0, end);
        assert(line@ =~= chomp(pieces@[i as int]@));
        out.push(line);
        i = i + 1;
    }
    assert forall|k: int| 0 <= k < out@.len() implies texts(out@)[k] == lines(s@)[k] by {
        assert(split_inclusive(s@, '\n')[k] == pieces@[k]@);
    }
    assert(texts(out@) =~= lines(s@));
    out
}

// ---------------------------------------------------------------------------
// Words
// ---------------------------------------------------------------------------

/// The words of a text: its longest stretches without white space.
pub open spec fn words(s: Seq<char>) -> Seq<Seq<char>>
    decreases s.len(),
{
    if s.len() == 0 {
        Seq::empty()
    } else if is_white_space(s.last()) {
        words(s.drop_last())
    } else if s.len() == 1 || is_white_space(s[s.len() - 2]) {
        words(s.drop_last()).push(seq![s.last()])
    } else {
        extend_last(words(s.drop_last()), s.last())
    }
}

/// The words of a text.
pub fn words_of(s: &str) -> (out: Vec<String>)
    ensures
        texts(out@) == words(s@),
{
    let chars = chars_of(s);
    let mut out: Vec<String> = Vec::new();
    let mut start: usize = 0;
    let mut i: usize = 0;
    let ghost mut done: Seq<Seq<char>> = Seq::empty();
    while i < chars.len()
        invariant
            start <= i <= chars.len(),
            chars@ == s@,
            texts(out@) == done,
            words(s@.take(i as int)) == if start < i {
                done.push(s@.subrange(start as int, i as int))
            } else {
                done
            },
            start < i ==> !is_white_space(s@[i - 1]),
            0 < start == i ==> is_white_space(s@[i - 1]),
        decreases chars.len() - i,
    {
        proof {
            assert(s@.take(i + 1).drop_last() =~= s@.take(i as int));
            if start < i {
                assert(done.push(s@.subrange(start as int, i as int)).drop_last() =~= done);
                assert(s@.subrange(start as int, i as int).push(s@[i as int]) =~= s@.subrange(
                    start as int,
                    i + 1,
                ));
            } else {
                assert(s@.subrange(start as int, i + 1) =~= seq![s@[i as int]]);
            }
        }
        if chars[i].is_whitespace() {
            if start < i {
                out.push(slice_text(&chars, start, i));
                proof {
                    done = done.push(s@.subrange(start as int, i as int));
                    assert(texts(out@) =~= done);
                }
            }
            start = i + 1;
        }
        i = i + 1;
    }
    assert(s@.take(i as int) =~= s@);
    if start < chars.len() {
        out.push(slice_text(&chars, start, chars.len()));
        assert(texts(out@) =~= done.push(s@.subrange(start as int, chars.len() as int)));
    }
    out
}

// ---------------------------------------------------------------------------
// Joining
// ---------------------------------------------------------------------------

/// The texts one after the other with `sep` between each two.
pub open spec fn join(parts: Seq<Seq<char>>, sep: Seq<char>) -> Seq<char>
    decreases parts.len(),
{
    if parts.len() == 0 {
        Seq::empty()
    } else if parts.len() == 1 {
        parts[0]
    } else {
        join(parts.drop_last(), sep) + sep + parts.last()
    }
}

/// The strings one after the other with `sep` between each two.
pub fn joined(parts: &Vec<String>, sep: &str) -> (out: String)
    ensures
        out@ == join(texts(parts@), sep@),
{
    let mut out: String = String::new();
    let mut i: usize = 0;
    let ghost all = texts(parts@);
    while i < parts.len()
        invariant
            i <= parts.len(),
            all == texts(parts@),
            out@ == join(all.take(i as int), sep@),
        decreases parts.len() - i,
    {
        assert(all.take(i + 1).drop_last() =~= all.take(i as int));
        if i > 0 {
            out.append(sep);
        }
        out.append(parts[i].as_str());
        i = i + 1;
        assert(out@ =~= join(all.take(i as int), sep@));
    }
    assert(all.take(i as int) =~= all);
    out
}

} // verus!
