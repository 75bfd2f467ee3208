//! Markdown heading lines, code fences and heading breadcrumbs.
use crate::lines::{
    join, joined, trim, trim_end_of, trim_start, trimmed, trimmed_end_of, trimmed_start,
};
use crate::text::{
    chars_of, from_chars, has_char, is_letter_or_digit, lower_char, lower_of_char, slice_text,
    texts,
};
use vstd::prelude::*;
use vstd::utf8::encode_utf8;

verus! {

/// A heading: its level, from 1 to 6 for a parsed one, and its text.
pub struct Heading {
    pub level: nat,
    pub text: Seq<char>,
}

/// A heading as it is held at run time.
#[derive(Debug)]
pub struct HeadingFrame {
    pub level: usize,
    pub text: String,
}

impl View for HeadingFrame {
    type V = Heading;

    open spec fn view(&self) -> Heading {
        Heading { level: self.level as nat, text: self.text@ }
    }
}

/// A code fence that was opened and not yet closed.
#[derive(Debug, Clone, Copy, PartialEq, Eq, Structural)]
pub struct OpenFence {
    pub delimiter: char,
    pub length: usize,
}

/// The number of bytes of white space before the first other character.
pub open spec fn indent_bytes(line: Seq<char>) -> int {
    encode_utf8(line).len() - encode_utf8(trim_start(line)).len()
}

/// How many occurrences of `c` the text begins with.
pub open spec fn run_of(s: Seq<char>, c: char) -> nat
    decreases s.len(),
{
    if s.len() > 0 && s[0] == c {
        1 + run_of(s.drop_first(), c)
    } else {
        0
    }
}

/// The run of a character is a prefix of the text.
pub proof fn lemma_run_of(s: Seq<char>, c: char)
    ensures
        run_of(s, c) <= s.len(),
        forall|i: int| 0 <= i < run_of(s, c) ==> s[i] == c,
        run_of(s, c) < s.len() ==> s[run_of(s, c) as int] != c,
    decreases s.len(),
{
    if s.len() > 0 && s[0] == c {
        lemma_run_of(s.drop_first(), c);
        assert forall|i: int| 0 <= i < run_of(s, c) implies s[i] == c by {
            if i > 0 {
                assert(s.drop_first()[i - 1] == c);
            }
        }
    }
}

/// The heading that a line is, if it is one: at most three bytes of indent, one
/// to six hashes and a space. Hashes that close the line are no part of the text.
pub open spec fn heading_of(line: Seq<char>) -> Option<Heading> {
    let body = trim_start(line);
    let hashes = run_of(body, '#');
    if indent_bytes(line) <= 3 && 1 <= hashes <= 6 && hashes < body.len() && body[hashes as int]
        == ' ' {
        Some(
            Heading {
                level: hashes,
                text: trim(trim_end_of(trim(body.skip(hashes as int)), '#')),
            },
        )
    } else {
        None
    }
}

/// The fence that is open after a line, given the one that was open before it.
/// A line of three or more backticks or tildes opens a fence; a line of at least
/// as many of the same, with nothing behind them, closes it. A line indented by
/// more than three bytes does neither, nor does any other line.
pub open spec fn fence_after(line: Seq<char>, open: Option<OpenFence>) -> Option<OpenFence> {
    let body = trim_start(line);
    if indent_bytes(line) > 3 || body.len() == 0 || (body[0] != '`' && body[0] != '~') {
        open
    } else {
        let delimiter = body[0];
        let length = run_of(body, delimiter);
        let trailing = body.skip(length as int);
        if length < 3 {
            open
        } else {
            match open {
                None => if delimiter == '`' && trailing.contains('`') {
                    None
                } else {
                    Some(OpenFence { delimiter, length: length as usize })
                },
                Some(active) => if active.delimiter == delimiter && length >= active.length
                    && trim(trailing).len() == 0 {
                    None
                } else {
                    open
                },
            }
        }
    }
}

/// How many occurrences of `c` the characters begin with.
fn leading_run(chars: &Vec<char>, c: char) -> (n: usize)
    ensures
        n == run_of(chars@, c),
        n <= chars.len(),
{
    let mut n: usize = 0;
    assert(chars@.skip(0) =~= chars@);
    while n < chars.len() && chars[n] == c
        invariant
            n <= chars.len(),
            run_of(chars@, c) == n + run_of(chars@.skip(n as int), c),
        decreases chars.len() - n,
    {
        assert(chars@.skip(n as int).drop_first() =~= chars@.skip(n + 1));
        n = n + 1;
    }
    n
}

/// Whether the line is indented by more than three bytes.
fn is_indented(line: &str, body: &str) -> (r: bool)
    requires
        body@ == trim_start(line@),
    ensures
        r == (indent_bytes(line@) > 3),
{
    let all: usize = line.as_bytes().len();
    let rest: usize = body.as_bytes().len();
    all >= rest && all - rest > 3
}

/// The heading that a line is, if it is one.
pub fn parse_heading(line: &str) -> (r: Option<HeadingFrame>)
    ensures
        match r {
            Some(frame) => heading_of(line@) == Some(frame@) && 1 <= frame.level <= 6,
            None => heading_of(line@) is None,
        },
{
    let body = trimmed_start(line);
    if is_indented(line, body.as_str()) {
        return None;
    }
    let chars = chars_of(body.as_str());
    let hashes: usize = leading_run(&chars, '#');
    if 1 <= hashes && hashes <= 6 && hashes < chars.len() && chars[hashes] == ' ' {
        let rest = slice_text(&chars, hashes, chars.len());
        assert(rest@ =~= body@.skip(hashes as int));
        let kept = trimmed(trimmed_end_of(trimmed(rest.as_str()).as_str(), '#').as_str());
        Some(HeadingFrame { level: hashes, text: kept })
    } else {
        None
    }
}

/// The fence that is open after a line, given the one that was open before it.
pub fn next_fence_state(line: &str, open: Option<OpenFence>) -> (r: Option<OpenFence>)
    ensures
        r == fence_after(line@, open),
{
    let body = trimmed_start(line);
    if is_indented(line, body.as_str()) {
        return open;
    }
    let chars = chars_of(body.as_str());
    if chars.len() == 0 {
        return open;
    }
    let delimiter: char = chars[0];
    if delimiter != '`' && delimiter != '~' {
        return open;
    }
    let length: usize = leading_run(&chars, delimiter);
    if length < 3 {
        return open;
    }
    let trailing = slice_text(&chars, length, chars.len());
    assert(trailing@ =~= body@.skip(length as int));
    match open {
        None => if delimiter == '`' && has_char(trailing.as_str(), '`') {
            None
        } else {
            Some(OpenFence { delimiter, length })
        },
        Some(active) => if active.delimiter == delimiter && length >= active.length && trimmed(
            trailing.as_str(),
        ).as_str().is_empty() {
            None
        } else {
            Some(active)
        },
    }
}

/// The texts of the headings.
pub open spec fn heading_texts(headings: Seq<Heading>) -> Seq<Seq<char>> {
    headings.map_values(|h: Heading| h.text)
}

/// The headings from the outermost to the innermost, as one line.
pub open spec fn breadcrumb(headings: Seq<Heading>) -> Seq<char> {
    join(heading_texts(headings), " > "@)
}

/// The model of a vector of headings.
pub open spec fn frames(v: Seq<HeadingFrame>) -> Seq<Heading> {
    v.map_values(|h: HeadingFrame| h@)
}

/// A copy of a heading.
pub fn copy_heading(h: &HeadingFrame) -> (out: HeadingFrame)
    ensures
        out@ == h@,
{
    HeadingFrame { level: h.level, text: h.text.clone() }
}

/// A copy of a vector of headings.
pub fn copy_headings(v: &Vec<HeadingFrame>) -> (out: Vec<HeadingFrame>)
    ensures
        frames(out@) == frames(v@),
{
    let mut out: Vec<HeadingFrame> = Vec::new();
    let mut i: usize = 0;
    while i < v.len()
        invariant
            i <= v.len(),
            out.len() == i,
            forall|k: int| 0 <= k < i ==> out@[k]@ == v@[k]@,
        decreases v.len() - i,
    {
        out.push(copy_heading(&v[i]));
        i = i + 1;
    }
    assert(frames(out@) =~= frames(v@));
    out
}

/// The headings from the outermost to the innermost, as one line.
pub fn format_breadcrumb(headings: &Vec<HeadingFrame>) -> (out: String)
    ensures
        out@ == breadcrumb(frames(headings@)),
{
    let mut parts: Vec<String> = Vec::new();
    let mut i: usize = 0;
    while i < headings.len()
        invariant
            i <= headings.len(),
            parts.len() == i,
            forall|k: int| 0 <= k < i ==> parts@[k]@ == headings@[k].text@,
        decreases headings.len() - i,
    {
        parts.push(headings[i].text.clone());
        i = i + 1;
    }
    assert(texts(parts@) =~= heading_texts(frames(headings@)));
    joined(&parts, " > ")
}

/// The letters and digits of the text, in lower case.
pub open spec fn folded(s: Seq<char>) -> Seq<char>
    decreases s.len(),
{
    if s.len() == 0 {
        s
    } else if is_letter_or_digit(s.last()) {
        folded(s.drop_last()) + lower_of_char(s.last())
    } else {
        folded(s.drop_last())
    }
}

/// The letters and digits of the text, in lower case: what is compared to tell
/// whether a heading repeats the title of its note.
pub fn normalize_heading(value: &str) -> (out: String)
    ensures
        out@ == folded(value@),
{
    let chars = chars_of(value);
    let mut kept: Vec<char> = Vec::new();
    let mut i: usize = 0;
    while i < chars.len()
        invariant
            i <= chars.len(),
            chars@ == value@,
            kept@ == folded(value@.take(i as int)),
        decreases chars.len() - i,
    {
        assert(value@.take(i + 1).drop_last() =~= value@.take(i as int));
        if chars[i].is_alphanumeric() {
            let mut lower = lower_char(chars[i]);
            kept.append(&mut lower);
        }
        i = i + 1;
    }
    assert(value@.take(i as int) =~= value@);
    from_chars(&kept)
}

} // verus!
