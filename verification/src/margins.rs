//! What white space means, before a line and elsewhere.
use crate::headings::{fence_after, heading_of, indent_bytes, OpenFence};
use crate::lines::{chomp, lines, split_inclusive, trim_start};
use crate::phrasing::lemma_bytes_are_those_of_utf8;
use crate::search::snippet;
use crate::text::{ascii_lower, contains, is_white_space, lemma_position_of, lower_of_text};
use crate::utf8::{byte_len, width};
use vstd::prelude::*;

verus! {

proof fn lemma_bytes_in_front(c: char, s: Seq<char>)
    ensures
        byte_len(seq![c] + s) == width(c) + byte_len(s),
    decreases s.len(),
{
    let all = seq![c] + s;
    if s.len() == 0 {
        assert(all.drop_last() =~= Seq::<char>::empty());
        assert(byte_len(all.drop_last()) == 0);
    } else {
        lemma_bytes_in_front(c, s.drop_last());
        assert(all.drop_last() =~= seq![c] + s.drop_last());
        assert(all.last() == s.last());
    }
}

proof fn lemma_indent(n: nat, line: Seq<char>)
    requires
        line.len() > 0,
        !is_white_space(line[0]),
    ensures
        ({
            let all = Seq::new(n, |i: int| ' ') + line;
            &&& trim_start(all) == line
            &&& byte_len(all) == n + byte_len(line)
        }),
    decreases n,
{
    let space = Seq::new(n, |i: int| ' ');
    let all = space + line;
    if n == 0 {
        assert(all =~= line);
    } else {
        let less = Seq::new((n - 1) as nat, |i: int| ' ');
        lemma_indent((n - 1) as nat, line);
        assert(all.drop_first() =~= less + line);
        assert(all =~= seq![' '] + (less + line));
        lemma_bytes_in_front(' ', less + line);
        assert(all[0] == ' ');
    }
}

/// Up to three spaces before a heading or a fence do not count. With four or more the line is
/// neither a heading, nor does it open or close a fence.
pub proof fn lemma_three_spaces_do_not_count(n: nat, line: Seq<char>, open: Option<OpenFence>)
    requires
        line.len() > 0,
        !is_white_space(line[0]),
    ensures
        ({
            let all = Seq::new(n, |i: int| ' ') + line;
            &&& n <= 3 ==> heading_of(all) == heading_of(line) && fence_after(all, open)
                == fence_after(line, open)
            &&& n > 3 ==> heading_of(all) is None && fence_after(all, open) == open
        }),
{
    let all = Seq::new(n, |i: int| ' ') + line;
    lemma_indent(n, line);
    lemma_bytes_are_those_of_utf8(all);
    lemma_bytes_are_those_of_utf8(line);
    assert(trim_start(line) == line);
    assert(indent_bytes(all) == n);
    assert(indent_bytes(line) == 0);
}

/// Among the ASCII characters, the space and the five control characters from the tab to the
/// carriage return are white space, and no others.
pub proof fn lemma_white_space_in_ascii(c: char)
    requires
        c as u32 <= 127,
    ensures
        is_white_space(c) <==> c == ' ' || 9 <= c as u32 <= 13,
        c == ' ' || c == '\t' || c == '\n' || c == '\r' ==> is_white_space(c),
        'a' <= c <= 'z' || 'A' <= c <= 'Z' || '0' <= c <= '9' ==> !is_white_space(c),
{
}

/// The lower-case form of a capital is the small letter, and other characters stay.
pub proof fn lemma_only_capitals_are_lowered(c: char)
    ensures
        'A' <= c <= 'Z' ==> 'a' <= ascii_lower(c) <= 'z' && ascii_lower(c) as int - 'a' as int
            == c as int - 'A' as int,
        !('A' <= c <= 'Z') ==> ascii_lower(c) == c,
{
}

proof fn lemma_one_line(a: Seq<char>)
    requires
        !a.contains('\n'),
    ensures
        a.len() == 0 ==> split_inclusive(a, '\n').len() == 0,
        a.len() > 0 ==> split_inclusive(a, '\n') == seq![a],
    decreases a.len(),
{
    if a.len() > 0 {
        let front = a.drop_last();
        assert forall|i: int| 0 <= i < front.len() implies front[i] != '\n' by {
            assert(front[i] == a[i]);
            assert(a.contains(a[i]));
        }
        lemma_one_line(front);
        if a.len() == 1 {
            assert(seq![a.last()] =~= a);
            assert(split_inclusive(a, '\n') =~= seq![a]);
        } else {
            assert(a.contains(a[a.len() - 2]));
            assert(front.push(a.last()) =~= a);
            assert(split_inclusive(a, '\n') =~= seq![a]);
        }
    }
}

proof fn lemma_first_piece(a: Seq<char>, b: Seq<char>)
    requires
        !a.contains('\n'),
    ensures
        ({
            let pieces = split_inclusive(a.push('\n') + b, '\n');
            &&& pieces.len() > 0
            &&& b.len() > 0 ==> pieces.len() > 1
            &&& pieces[0] == a.push('\n')
        }),
    decreases b.len(),
{
    let all = a.push('\n') + b;
    if b.len() == 0 {
        assert(all =~= a.push('\n'));
        assert(all.drop_last() =~= a);
        lemma_one_line(a);
        if a.len() == 0 {
            assert(seq![all.last()] =~= a.push('\n'));
        } else {
            assert(a.contains(a[a.len() - 1]));
            assert(all[all.len() - 2] == a.last());
        }
    } else {
        lemma_first_piece(a, b.drop_last());
        assert(all.drop_last() =~= a.push('\n') + b.drop_last());
        if b.len() == 1 {
            assert(all[all.len() - 2] == '\n');
        }
    }
}

/// Where a text does not hold the query, its first line is shown: all that stands before its
/// first line end.
pub proof fn lemma_first_lines_are_shown_otherwise(
    line: Seq<char>,
    rest: Seq<char>,
    query: Seq<char>,
)
    requires
        !line.contains('\n'),
        line.len() > 0 ==> line.last() != '\r',
        ({
            let content = line.push('\n') + rest;
            query.len() == 0 || query == "*"@ || !contains(
                lower_of_text(content),
                lower_of_text(query),
            )
        }),
    ensures
        snippet(line.push('\n') + rest, query) == line,
{
    let content = line.push('\n') + rest;
    lemma_first_piece(line, rest);
    assert(lines(content)[0] == chomp(line.push('\n')));
    assert(line.push('\n').drop_last() =~= line);
    lemma_position_of(lower_of_text(content), lower_of_text(query), 0);
}

} // verus!
