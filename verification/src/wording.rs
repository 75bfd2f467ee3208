//! What trimming, cutting and joining do to a text, told by the places of its characters.
use crate::coverage::{has_ink, lemma_trim};
use crate::lines::{
    chomp, extend_last, join, lines, split, split_inclusive, trim, trim_end, unix_newlines, words,
};
use crate::text::is_white_space;
use vstd::prelude::*;

verus! {

// ---------------------------------------------------------------------------
// Trimming
// ---------------------------------------------------------------------------

/// A trimmed text is the stretch from the first to the last character that is no white space:
/// nothing but white space stands around it, and neither end is white space.
pub proof fn lemma_trimming_cuts_white_space_at_the_ends(s: Seq<char>) -> (ends: (int, int))
    ensures
        0 <= ends.0 <= ends.1 <= s.len(),
        trim(s) == s.subrange(ends.0, ends.1),
        forall|i: int| 0 <= i < ends.0 || ends.1 <= i < s.len() ==> is_white_space(#[trigger] s[i]),
        trim(s).len() > 0 ==> !is_white_space(trim(s)[0]) && !is_white_space(trim(s).last()),
        trim(s).len() == 0 <==> forall|i: int| 0 <= i < s.len() ==> is_white_space(#[trigger] s[i]),
{
    let ends = lemma_trim(s);
    lemma_end_is_ink(crate::lines::trim_start(s));
    if trim(s).len() > 0 {
        assert(trim(s)[0] == s[ends.0]);
    }
    if trim(s).len() == 0 {
        assert(!has_ink(s));
    }
    ends
}

proof fn lemma_end_is_ink(s: Seq<char>)
    ensures
        trim_end(s).len() > 0 ==> !is_white_space(trim_end(s).last()),
    decreases s.len(),
{
    if s.len() > 0 && is_white_space(s.last()) {
        lemma_end_is_ink(s.drop_last());
    }
}

// ---------------------------------------------------------------------------
// Words
// ---------------------------------------------------------------------------

/// Whether these are the stretches of a text without white space, as long as they can be, in
/// their order.
pub open spec fn are_stretches(s: Seq<char>, ends: Seq<(int, int)>) -> bool {
    &&& forall|k: int|
        0 <= k < ends.len() ==> 0 <= (#[trigger] ends[k]).0 < ends[k].1 <= s.len()
    &&& forall|k: int, i: int|
        0 <= k < ends.len() && (#[trigger] ends[k]).0 <= i < ends[k].1 ==> !is_white_space(
            #[trigger] s[i],
        )
    &&& forall|k: int|
        0 <= k < ends.len() ==> ((#[trigger] ends[k]).0 > 0 ==> is_white_space(s[ends[k].0 - 1]))
            && (ends[k].1 < s.len() ==> is_white_space(s[ends[k].1]))
    &&& forall|j: int, k: int|
        0 <= j < k < ends.len() ==> (#[trigger] ends[j]).1 < (#[trigger] ends[k]).0
    &&& forall|i: int|
        0 <= i < s.len() && !is_white_space(#[trigger] s[i]) ==> exists|k: int|
            0 <= k < ends.len() && (#[trigger] ends[k]).0 <= i < ends[k].1
}

/// The words of a text are its stretches without white space, all of them and in order.
#[verifier::spinoff_prover]
#[verifier::rlimit(30)]
pub proof fn lemma_words_are_stretches(s: Seq<char>) -> (ends: Seq<(int, int)>)
    ensures
        ends.len() == words(s).len(),
        are_stretches(s, ends),
        forall|k: int|
            0 <= k < ends.len() ==> #[trigger] words(s)[k] == s.subrange(ends[k].0, ends[k].1),
        s.len() > 0 && !is_white_space(s.last()) ==> ends.len() > 0 && ends.last().1 == s.len(),
    decreases s.len(),
{
    if s.len() == 0 {
        Seq::empty()
    } else {
        let front = s.drop_last();
        let n = s.len() as int;
        let before = lemma_words_are_stretches(front);
        assert forall|i: int| 0 <= i < n - 1 implies front[i] == s[i] by {}
        if is_white_space(s.last()) {
            assert forall|k: int| 0 <= k < before.len() implies #[trigger] words(s)[k]
                == s.subrange(before[k].0, before[k].1) by {
                assert(words(front)[k] =~= s.subrange(before[k].0, before[k].1));
            }
            assert(are_stretches(s, before)) by {
                assert forall|k: int| 0 <= k < before.len() implies ((#[trigger] before[k]).0 > 0
                    ==> is_white_space(s[before[k].0 - 1])) && (before[k].1 < s.len()
                    ==> is_white_space(s[before[k].1])) by {
                    if before[k].0 > 0 {
                        assert(front[before[k].0 - 1] == s[before[k].0 - 1]);
                    }
                    if before[k].1 < n - 1 {
                        assert(front[before[k].1] == s[before[k].1]);
                    }
                }
                assert forall|k: int, i: int|
                    0 <= k < before.len() && (#[trigger] before[k]).0 <= i < before[k].1 implies
                    !is_white_space(#[trigger] s[i]) by {
                    assert(front[i] == s[i]);
                }
                assert forall|i: int| 0 <= i < s.len() && !is_white_space(#[trigger] s[i]) implies
                    exists|k: int|
                    0 <= k < before.len() && (#[trigger] before[k]).0 <= i < before[k].1 by {
                    assert(front[i] == s[i]);
                }
            }
            before
        } else if n == 1 || is_white_space(s[n - 2]) {
            let ends = before.push((n - 1, n));
            assert(words(s) == words(front).push(seq![s.last()]));
            assert forall|k: int| 0 <= k < before.len() implies (#[trigger] before[k]).1 < n - 1 by {
                if before[k].1 == n - 1 {
                    assert(before[k].0 <= n - 2 < before[k].1);
                    assert(front[n - 2] == s[n - 2]);
                }
            }
            assert forall|k: int| 0 <= k < ends.len() implies #[trigger] words(s)[k] == s.subrange(
                ends[k].0,
                ends[k].1,
            ) by {
                if k < before.len() {
                    assert(words(front)[k] =~= s.subrange(before[k].0, before[k].1));
                } else {
                    assert(seq![s.last()] =~= s.subrange(n - 1, n));
                }
            }
            assert(are_stretches(s, ends)) by {
                assert forall|k: int| 0 <= k < ends.len() implies ((#[trigger] ends[k]).0 > 0
                    ==> is_white_space(s[ends[k].0 - 1])) && (ends[k].1 < s.len()
                    ==> is_white_space(s[ends[k].1])) by {
                    if k < before.len() {
                        assert(ends[k] == before[k]);
                        if before[k].0 > 0 {
                            assert(front[before[k].0 - 1] == s[before[k].0 - 1]);
                        }
                        assert(front[before[k].1] == s[before[k].1]);
                    }
                }
                assert forall|k: int, i: int|
                    0 <= k < ends.len() && (#[trigger] ends[k]).0 <= i < ends[k].1 implies
                    !is_white_space(#[trigger] s[i]) by {
                    if k < before.len() {
                        assert(ends[k] == before[k]);
                        assert(front[i] == s[i]);
                    }
                }
                assert forall|j: int, k: int| 0 <= j < k < ends.len() implies (
                #[trigger] ends[j]).1 < (#[trigger] ends[k]).0 by {
                    assert(ends[j] == before[j]);
                    if k < before.len() {
                        assert(ends[k] == before[k]);
                    }
                }
                assert forall|i: int| 0 <= i < s.len() && !is_white_space(#[trigger] s[i]) implies
                    exists|k: int|
                    0 <= k < ends.len() && (#[trigger] ends[k]).0 <= i < ends[k].1 by {
                    if i < n - 1 {
                        assert(front[i] == s[i]);
                        let k = choose|k: int|
                            0 <= k < before.len() && (#[trigger] before[k]).0 <= i < before[k].1;
                        assert(ends[k] == before[k]);
                    } else {
                        assert(ends[before.len() as int].0 <= i < ends[before.len() as int].1);
                    }
                }
            }
            ends
        } else {
            let last = before.len() - 1;
            assert(front.last() == s[n - 2]);
            let ends = before.update(last, (before[last].0, n));
            assert(words(s) == extend_last(words(front), s.last()));
            assert forall|k: int| 0 <= k < ends.len() implies #[trigger] words(s)[k] == s.subrange(
                ends[k].0,
                ends[k].1,
            ) by {
                if k < last {
                    assert(words(front)[k] =~= s.subrange(before[k].0, before[k].1));
                } else {
                    assert(words(front)[last] =~= s.subrange(before[last].0, n - 1));
                    assert(words(s)[k] =~= s.subrange(before[last].0, n));
                }
            }
            assert(are_stretches(s, ends)) by {
                assert forall|k: int| 0 <= k < ends.len() implies ((#[trigger] ends[k]).0 > 0
                    ==> is_white_space(s[ends[k].0 - 1])) && (ends[k].1 < s.len()
                    ==> is_white_space(s[ends[k].1])) by {
                    assert(ends[k].0 == before[k].0);
                    if before[k].0 > 0 {
                        assert(front[before[k].0 - 1] == s[before[k].0 - 1]);
                    }
                    if k < last {
                        assert(before[k].1 < before[last].0);
                        assert(front[before[k].1] == s[before[k].1]);
                    }
                }
                assert forall|k: int, i: int|
                    0 <= k < ends.len() && (#[trigger] ends[k]).0 <= i < ends[k].1 implies
                    !is_white_space(#[trigger] s[i]) by {
                    assert(ends[k].0 == before[k].0);
                    if i < n - 1 {
                        assert(front[i] == s[i]);
                        if k < last {
                            assert(ends[k] == before[k]);
                        }
                    }
                }
                assert forall|j: int, k: int| 0 <= j < k < ends.len() implies (
                #[trigger] ends[j]).1 < (#[trigger] ends[k]).0 by {
                    assert(ends[j] == before[j]);
                    assert(ends[k].0 == before[k].0);
                    assert(before[j].1 < before[k].0);
                }
                assert forall|i: int| 0 <= i < s.len() && !is_white_space(#[trigger] s[i]) implies
                    exists|k: int|
                    0 <= k < ends.len() && (#[trigger] ends[k]).0 <= i < ends[k].1 by {
                    if i < n - 1 {
                        assert(front[i] == s[i]);
                        let k = choose|k: int|
                            0 <= k < before.len() && (#[trigger] before[k]).0 <= i < before[k].1;
                        assert(ends[k].0 == before[k].0);
                    } else {
                        assert(ends[last].0 <= i < ends[last].1);
                    }
                }
            }
            ends
        }
    }
}

// ---------------------------------------------------------------------------
// Pieces and lines
// ---------------------------------------------------------------------------

/// Cutting at a character and joining with it again gives the text back, and no piece holds
/// the character.
pub proof fn lemma_split_and_join(s: Seq<char>, sep: char)
    ensures
        split(s, sep).len() > 0,
        join(split(s, sep), seq![sep]) == s,
        forall|k: int| 0 <= k < split(s, sep).len() ==> !(#[trigger] split(s, sep)[k]).contains(sep),
    decreases s.len(),
{
    let glue = seq![sep];
    if s.len() == 0 {
        assert(split(s, sep)[0] =~= s);
    } else {
        let front = s.drop_last();
        let before = split(front, sep);
        lemma_split_and_join(front, sep);
        let after = split(s, sep);
        if s.last() == sep {
            assert(after.drop_last() =~= before);
            assert(join(after, glue) =~= s);
        } else {
            let grown = before.last().push(s.last());
            assert(after.drop_last() =~= before.drop_last());
            assert(after.last() == grown);
            assert(join(after, glue) =~= join(before, glue).push(s.last())) by {
                if before.len() == 1 {
                    assert(after[0] == grown);
                }
            }
            assert(join(after, glue) =~= s);
            assert forall|k: int| 0 <= k < after.len() implies !(#[trigger] after[k]).contains(
                sep,
            ) by {
                if k < before.len() - 1 {
                    assert(after[k] == before[k]);
                } else {
                    assert(!before[before.len() - 1].contains(sep));
                    if grown.contains(sep) {
                        let i = grown.index_of(sep);
                        if i < before.last().len() {
                            assert(before.last()[i] == sep);
                            assert(before.last().contains(sep));
                        }
                    }
                }
            }
        }
    }
}

/// Cutting behind a character loses nothing: the pieces one after the other are the text. Each
/// of them holds the character at its end or not at all, and all but the last one do.
pub proof fn lemma_pieces_make_the_text(s: Seq<char>, sep: char)
    ensures
        ({
            let pieces = split_inclusive(s, sep);
            &&& join(pieces, Seq::empty()) == s
            &&& pieces.len() == 0 <==> s.len() == 0
            &&& forall|k: int| 0 <= k < pieces.len() ==> (#[trigger] pieces[k]).len() > 0
            &&& forall|k: int, i: int|
                0 <= k < pieces.len() && 0 <= i < pieces[k].len() - 1 ==> #[trigger] pieces[k][i]
                    != sep
            &&& forall|k: int|
                0 <= k < pieces.len() - 1 ==> (#[trigger] pieces[k]).last() == sep
            &&& s.len() > 0 ==> pieces.last().last() == s.last()
        }),
    decreases s.len(),
{
    let none = Seq::<char>::empty();
    if s.len() > 0 {
        let front = s.drop_last();
        let before = split_inclusive(front, sep);
        lemma_pieces_make_the_text(front, sep);
        let after = split_inclusive(s, sep);
        if s.len() == 1 || s[s.len() - 2] == sep {
            let one = seq![s.last()];
            assert(after.drop_last() =~= before);
            assert(join(after, none) =~= join(before, none) + one) by {
                if before.len() == 0 {
                    assert(join(before, none) =~= none);
                }
            }
            assert(join(after, none) =~= s);
            assert forall|k: int| 0 <= k < after.len() - 1 implies (#[trigger] after[k]).last()
                == sep by {
                assert(after[k] == before[k]);
                if k == before.len() - 1 {
                    assert(before.last().last() == front.last());
                }
            }
            assert forall|k: int, i: int|
                0 <= k < after.len() && 0 <= i < after[k].len() - 1 implies #[trigger] after[k][i]
                != sep by {
                if k < before.len() {
                    assert(after[k] == before[k]);
                    assert(before[k][i] != sep);
                }
            }
            assert forall|k: int| 0 <= k < after.len() implies (#[trigger] after[k]).len() > 0 by {
                if k < before.len() {
                    assert(after[k] == before[k]);
                }
            }
        } else {
            let last = before.len() - 1;
            let grown = before.last().push(s.last());
            assert(after.drop_last() =~= before.drop_last());
            assert(after.last() == grown);
            assert(join(after, none) =~= join(before, none).push(s.last())) by {
                if before.len() == 1 {
                    assert(after[0] == grown);
                }
            }
            assert(join(after, none) =~= s);
            assert forall|k: int, i: int|
                0 <= k < after.len() && 0 <= i < after[k].len() - 1 implies #[trigger] after[k][i]
                != sep by {
                if k < last {
                    assert(after[k] == before[k]);
                    assert(before[k][i] != sep);
                } else {
                    assert(after[k][i] == before[last][i]);
                    if i == before[last].len() - 1 {
                        assert(before.last().last() == front.last());
                        assert(front.last() == s[s.len() - 2]);
                    } else {
                        assert(before[last][i] != sep);
                    }
                }
            }
            assert forall|k: int| 0 <= k < after.len() - 1 implies (#[trigger] after[k]).last()
                == sep by {
                assert(after[k] == before[k]);
            }
            assert forall|k: int| 0 <= k < after.len() implies (#[trigger] after[k]).len() > 0 by {
                if k < last {
                    assert(after[k] == before[k]);
                }
            }
        }
    }
}

/// The lines of a text with their ends make it up again: each is followed by `\n` or `\r\n`,
/// the last one possibly by nothing, and none holds a `\n` itself.
pub proof fn lemma_lines_and_their_ends_make_the_text(s: Seq<char>) -> (ends: Seq<Seq<char>>)
    ensures
        ends.len() == lines(s).len(),
        join(Seq::new(ends.len(), |k: int| lines(s)[k] + ends[k]), Seq::empty()) == s,
        forall|k: int|
            0 <= k < ends.len() ==> #[trigger] ends[k] == seq!['\n'] || ends[k] == seq!['\r', '\n']
                || (ends[k].len() == 0 && k == ends.len() - 1),
        forall|k: int|
            0 <= k < ends.len() ==> !(#[trigger] lines(s)[k]).contains('\n') && (ends[k].len() == 1
                ==> lines(s)[k].len() == 0 || lines(s)[k].last() != '\r'),
        s.len() > 0 ==> (s.last() == '\n' <==> ends.last().len() > 0),
{
    let pieces = split_inclusive(s, '\n');
    lemma_pieces_make_the_text(s, '\n');
    let ends = Seq::new(
        pieces.len(),
        |k: int| pieces[k].skip(chomp(pieces[k]).len() as int),
    );
    let both = Seq::new(ends.len(), |k: int| lines(s)[k] + ends[k]);
    assert forall|k: int| 0 <= k < ends.len() implies both[k] == pieces[k] by {
        assert(lines(s)[k] == chomp(pieces[k]));
        assert(both[k] =~= pieces[k]);
    }
    assert(both =~= pieces);
    assert forall|k: int| 0 <= k < ends.len() implies #[trigger] ends[k] == seq!['\n'] || ends[k]
        == seq!['\r', '\n'] || (ends[k].len() == 0 && k == ends.len() - 1) by {
        let piece = pieces[k];
        if piece.last() == '\n' {
            if piece.len() > 1 && piece[piece.len() - 2] == '\r' {
                assert(ends[k] =~= seq!['\r', '\n']);
            } else {
                assert(ends[k] =~= seq!['\n']);
            }
        }
    }
    assert forall|k: int| 0 <= k < ends.len() implies !(#[trigger] lines(s)[k]).contains('\n') && (
    ends[k].len() == 1 ==> lines(s)[k].len() == 0 || lines(s)[k].last() != '\r') by {
        let piece = pieces[k];
        let line = lines(s)[k];
        assert(line == chomp(piece));
        if line.contains('\n') {
            let i = line.index_of('\n');
            assert(piece[i] == '\n');
            assert(i == piece.len() - 1);
        }
        if ends[k].len() == 1 && line.len() > 0 {
            assert(piece.len() == line.len() + 1);
        }
    }
    ends
}

// ---------------------------------------------------------------------------
// Joining and line ends
// ---------------------------------------------------------------------------

/// A text joined to others stands behind them with the separator in between; one alone stands
/// as it is.
pub proof fn lemma_joining_one_more(parts: Seq<Seq<char>>, last: Seq<char>, sep: Seq<char>)
    ensures
        join(Seq::empty(), sep).len() == 0,
        parts.len() == 0 ==> join(parts.push(last), sep) == last,
        parts.len() > 0 ==> join(parts.push(last), sep) == join(parts, sep) + sep + last,
{
    assert(parts.push(last).drop_last() =~= parts);
}

proof fn lemma_unix_of_both(a: Seq<char>, b: Seq<char>)
    requires
        a.len() == 0 || b.len() == 0 || a.last() != '\r' || b[0] != '\n',
    ensures
        unix_newlines(a + b) == unix_newlines(a) + unix_newlines(b),
    decreases b.len(),
{
    if b.len() == 0 {
        assert(a + b =~= a);
        assert(unix_newlines(a) + unix_newlines(b) =~= unix_newlines(a));
    } else {
        let s = a + b;
        let front = b.drop_last();
        assert(s.drop_last() =~= a + front);
        assert(s.last() == b.last());
        lemma_unix_of_both(a, front);
        if b.len() > 1 {
            assert(s[s.len() - 2] == b[b.len() - 2]);
        } else if a.len() > 0 {
            assert(s[s.len() - 2] == a.last());
            assert(b[0] == b.last());
        }
        assert(unix_newlines(s) =~= unix_newlines(a) + unix_newlines(b));
    }
}

/// Each end of a line, be it `\r\n`, `\r` or `\n`, becomes one `\n`, and every other character
/// stays as it is, whatever stands around it.
pub proof fn lemma_every_line_end_becomes_one(a: Seq<char>, c: char, b: Seq<char>)
    ensures
        unix_newlines(a + seq!['\r', '\n'] + b) == unix_newlines(a) + seq!['\n'] + unix_newlines(b),
        c != '\r' && c != '\n' ==> unix_newlines(a + seq![c] + b) == unix_newlines(a) + seq![c]
            + unix_newlines(b),
        b.len() == 0 || b[0] != '\n' ==> unix_newlines(a + seq!['\r'] + b) == unix_newlines(a)
            + seq!['\n'] + unix_newlines(b),
        a.len() == 0 || a.last() != '\r' ==> unix_newlines(a + seq!['\n'] + b) == unix_newlines(a)
            + seq!['\n'] + unix_newlines(b),
        !unix_newlines(a).contains('\r'),
        !a.contains('\r') ==> unix_newlines(a) == a,
{
    lemma_unix_of_one('\r');
    lemma_unix_of_one('\n');
    lemma_unix_of_one(c);
    let crlf = seq!['\r', '\n'];
    assert(crlf.drop_last() =~= seq!['\r']);
    assert(unix_newlines(crlf) =~= seq!['\n']);
    lemma_unix_of_both(a, crlf);
    lemma_unix_of_both(a + crlf, b);
    if c != '\r' && c != '\n' {
        lemma_unix_of_both(a, seq![c]);
        lemma_unix_of_both(a + seq![c], b);
    }
    if b.len() == 0 || b[0] != '\n' {
        lemma_unix_of_both(a, seq!['\r']);
        lemma_unix_of_both(a + seq!['\r'], b);
    }
    if a.len() == 0 || a.last() != '\r' {
        lemma_unix_of_both(a, seq!['\n']);
        lemma_unix_of_both(a + seq!['\n'], b);
    }
    lemma_unix_is_clean(a);
}

proof fn lemma_unix_of_one(c: char)
    ensures
        c == '\r' ==> unix_newlines(seq![c]) == seq!['\n'],
        c != '\r' ==> unix_newlines(seq![c]) == seq![c],
{
    assert(seq![c].drop_last() =~= Seq::<char>::empty());
    assert(unix_newlines(Seq::<char>::empty()) =~= Seq::<char>::empty());
    if c == '\r' {
        assert(unix_newlines(seq![c]) =~= seq!['\n']);
    } else {
        assert(unix_newlines(seq![c]) =~= seq![c]);
    }
}

proof fn lemma_unix_is_clean(s: Seq<char>)
    ensures
        !unix_newlines(s).contains('\r'),
        !s.contains('\r') ==> unix_newlines(s) == s,
    decreases s.len(),
{
    if s.len() > 0 {
        let front = s.drop_last();
        let before = unix_newlines(front);
        let after = unix_newlines(s);
        lemma_unix_is_clean(front);
        if after.contains('\r') {
            let i = after.index_of('\r');
            if i < before.len() {
                assert(before[i] == '\r');
                assert(before.contains('\r'));
            }
        }
        if !s.contains('\r') {
            if front.contains('\r') {
                assert(s[front.index_of('\r')] == '\r');
            }
            assert(s[s.len() - 1] == s.last());
            if s.len() > 1 {
                assert(s[s.len() - 2] != '\r');
            }
            assert(after =~= s);
        }
    }
}

} // verus!
