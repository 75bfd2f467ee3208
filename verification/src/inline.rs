//! What stands inside a line of Markdown: links, embeds, tags and code.
use crate::headings::{lemma_run_of, run_of};
use crate::lines::{is_blank, trim};
use crate::text::{
    chars_of, find_from, is_letter_or_digit, is_white_space, lemma_position_of, occurs_at,
    position_of, reads_at, slice_text,
};
use vstd::prelude::*;

verus! {

/// What a part of a line is.
#[derive(Debug, Clone, Copy, PartialEq, Eq, Structural)]
pub enum SpanKind {
    /// Code between backticks.
    Code,
    /// Characters that stand for themselves: an escaped one, or backticks that open nothing.
    Literal,
    /// `![[target]]`
    Embed,
    /// `[[target]]`
    Wikilink,
    /// `![text](target)`
    Image,
    /// `[text](target)`
    Link,
    /// `#tag`
    Tag,
}

/// A part of a line: the characters from `start` up to `end`. In a link or an image the
/// text ends at `middle`; elsewhere `middle` is the start.
#[derive(Debug, Clone, Copy)]
pub struct Span {
    pub kind: SpanKind,
    pub start: usize,
    pub middle: usize,
    pub end: usize,
}

/// A part of a line, with its positions as numbers.
pub struct Part {
    pub kind: SpanKind,
    pub start: int,
    pub middle: int,
    pub end: int,
}

impl View for Span {
    type V = Part;

    open spec fn view(&self) -> Part {
        Part {
            kind: self.kind,
            start: self.start as int,
            middle: self.middle as int,
            end: self.end as int,
        }
    }
}

/// Spans as parts.
pub open spec fn parts(v: Seq<Span>) -> Seq<Part> {
    v.map_values(|s: Span| s@)
}

/// An ASCII character that a backslash can escape.
pub open spec fn is_punctuation(c: char) -> bool {
    '!' <= c <= '/' || ':' <= c <= '@' || '[' <= c <= '`' || '{' <= c <= '~'
}

/// How many characters of the line stand behind a position.
pub open spec fn left(line: Seq<char>, at: int) -> nat {
    if at < line.len() {
        (line.len() - at) as nat
    } else {
        0
    }
}

/// Where the next run of exactly `n` backticks begins.
pub open spec fn closing_ticks(line: Seq<char>, n: nat, from: int) -> Option<int>
    decreases left(line, from),
{
    if from < 0 || from >= line.len() {
        None
    } else if line[from] != '`' {
        closing_ticks(line, n, from + 1)
    } else if run_of(line.skip(from), '`') == n {
        Some(from)
    } else if run_of(line.skip(from), '`') == 0 {
        None
    } else {
        closing_ticks(line, n, from + run_of(line.skip(from), '`'))
    }
}

/// Code, or backticks that open none.
pub open spec fn code_at(line: Seq<char>, at: int) -> Part {
    let n = run_of(line.skip(at), '`');
    match closing_ticks(line, n, at + n) {
        Some(close) => Part { kind: SpanKind::Code, start: at, middle: at, end: close + n },
        None => Part { kind: SpanKind::Literal, start: at, middle: at, end: at + n },
    }
}

/// What `[[` or `![[` opens at a position, where the target begins `skip` characters later:
/// it reaches to the next `]]`, and the target is not blank.
pub open spec fn double_bracket(line: Seq<char>, at: int, skip: int, kind: SpanKind) -> Option<
    Part,
> {
    match position_of(line, "]]"@, at + skip) {
        Some(close) => if trim(line.subrange(at + skip, close)).len() > 0 {
            Some(Part { kind, start: at, middle: at, end: close + 2 })
        } else {
            None
        },
        None => None,
    }
}

/// What `[` or `![` opens at a position, where the text begins `skip` characters later: the
/// text reaches to the next `]`, which `(` follows, and the target to the next `)`.
pub open spec fn single_bracket(line: Seq<char>, at: int, skip: int, kind: SpanKind) -> Option<
    Part,
> {
    match position_of(line, "]"@, at + skip) {
        Some(middle) => if occurs_at(line, "]("@, middle) {
            match position_of(line, ")"@, middle + 2) {
                Some(close) => Some(Part { kind, start: at, middle, end: close + 1 }),
                None => None,
            }
        } else {
            None
        },
        None => None,
    }
}

/// Whether a tag can hold the character.
pub open spec fn is_tag_char(c: char) -> bool {
    is_letter_or_digit(c) || c == '_' || c == '-' || c == '/'
}

/// Where the run of characters that a tag can hold ends.
pub open spec fn tag_end(line: Seq<char>, from: int) -> int
    decreases line.len() - from,
{
    if 0 <= from < line.len() && is_tag_char(line[from]) {
        tag_end(line, from + 1)
    } else {
        from
    }
}

/// Whether a text is more than a number.
pub open spec fn names_something(tag: Seq<char>) -> bool {
    exists|i: int| 0 <= i < tag.len() && !('0' <= #[trigger] tag[i] <= '9')
}

/// A tag: `#` at the start of the line or behind white space, and a name that is not only a
/// number.
pub open spec fn tag_at(line: Seq<char>, at: int) -> Option<Part> {
    let end = tag_end(line, at + 1);
    if (at == 0 || is_white_space(line[at - 1])) && names_something(line.subrange(at + 1, end)) {
        Some(Part { kind: SpanKind::Tag, start: at, middle: at, end })
    } else {
        None
    }
}

/// What begins at a position, if anything does.
pub open spec fn part_at(line: Seq<char>, at: int) -> Option<Part> {
    if line[at] == '`' {
        Some(code_at(line, at))
    } else if line[at] == '\\' {
        if at + 1 < line.len() && is_punctuation(line[at + 1]) {
            Some(Part { kind: SpanKind::Literal, start: at, middle: at, end: at + 2 })
        } else {
            None
        }
    } else if line[at] == '!' {
        if occurs_at(line, "![["@, at) && double_bracket(line, at, 3, SpanKind::Embed) is Some {
            double_bracket(line, at, 3, SpanKind::Embed)
        } else if occurs_at(line, "!["@, at) {
            single_bracket(line, at, 2, SpanKind::Image)
        } else {
            None
        }
    } else if line[at] == '[' {
        if occurs_at(line, "[["@, at) && double_bracket(line, at, 2, SpanKind::Wikilink) is Some {
            double_bracket(line, at, 2, SpanKind::Wikilink)
        } else {
            single_bracket(line, at, 1, SpanKind::Link)
        }
    } else if line[at] == '#' {
        tag_at(line, at)
    } else {
        None
    }
}

/// All that stands in a line from a position on, from left to right. What has begun is not
/// looked into.
pub open spec fn parts_from(line: Seq<char>, at: int) -> Seq<Part>
    decreases left(line, at),
{
    if at < 0 || at >= line.len() {
        Seq::empty()
    } else {
        match part_at(line, at) {
            Some(part) => if part.end <= at {
                Seq::empty()
            } else {
                seq![part] + parts_from(line, part.end)
            },
            None => parts_from(line, at + 1),
        }
    }
}

// ---------------------------------------------------------------------------
// Reading a line
// ---------------------------------------------------------------------------

fn ticks_at(line: &Vec<char>, at: usize) -> (n: usize)
    requires
        at <= line.len(),
    ensures
        n == run_of(line@.skip(at as int), '`'),
        at + n <= line.len(),
        at < line.len() && line@[at as int] == '`' ==> n > 0,
{
    let mut n: usize = 0;
    while at + n < line.len() && line[at + n] == '`'
        invariant
            at + n <= line.len(),
            run_of(line@.skip(at as int), '`') == n + run_of(line@.skip(at + n), '`'),
            n == 0 || line@[at as int] == '`',
        decreases line.len() - n,
    {
        assert(line@.skip(at + n).drop_first() =~= line@.skip(at + n + 1));
        n = n + 1;
    }
    n
}

fn find_ticks(line: &Vec<char>, n: usize, from: usize) -> (r: Option<usize>)
    requires
        from <= line.len(),
    ensures
        match r {
            Some(at) => closing_ticks(line@, n as nat, from as int) == Some(at as int) && from <= at
                && at + n <= line.len(),
            None => closing_ticks(line@, n as nat, from as int) is None,
        },
{
    let mut at: usize = from;
    while at < line.len()
        invariant
            from <= at <= line.len(),
            closing_ticks(line@, n as nat, from as int) == closing_ticks(line@, n as nat, at as int),
        decreases line.len() - at,
    {
        if line[at] != '`' {
            at = at + 1;
        } else {
            let run: usize = ticks_at(line, at);
            if run == n {
                return Some(at);
            }
            at = at + run;
        }
    }
    None
}

fn span_of_code(line: &Vec<char>, at: usize) -> (r: Span)
    requires
        at < line.len(),
        line@[at as int] == '`',
    ensures
        r@ == code_at(line@, at as int),
        at < r.end <= line.len(),
{
    let n: usize = ticks_at(line, at);
    match find_ticks(line, n, at + n) {
        Some(close) => Span { kind: SpanKind::Code, start: at, middle: at, end: close + n },
        None => Span { kind: SpanKind::Literal, start: at, middle: at, end: at + n },
    }
}

fn bracketed_twice(line: &Vec<char>, at: usize, skip: usize, kind: SpanKind) -> (r: Option<Span>)
    requires
        at + skip <= line.len(),
        skip > 0,
    ensures
        match r {
            Some(span) => double_bracket(line@, at as int, skip as int, kind) == Some(span@) && at
                < span.end <= line.len() && at + skip + 2 <= span.end,
            None => double_bracket(line@, at as int, skip as int, kind) is None,
        },
{
    proof {
        reveal_strlit("]]");
    }
    match find_from(line, &chars_of("]]"), at + skip) {
        Some(close) => {
            let target = slice_text(line, at + skip, close);
            if is_blank(target.as_str()) {
                None
            } else {
                Some(Span { kind, start: at, middle: at, end: close + 2 })
            }
        },
        None => None,
    }
}

fn bracketed_once(line: &Vec<char>, at: usize, skip: usize, kind: SpanKind) -> (r: Option<Span>)
    requires
        at + skip <= line.len(),
        skip > 0,
    ensures
        match r {
            Some(span) => single_bracket(line@, at as int, skip as int, kind) == Some(span@) && at
                < span.end <= line.len() && at + skip <= span.middle && span.middle + 3 <= span.end,
            None => single_bracket(line@, at as int, skip as int, kind) is None,
        },
{
    proof {
        reveal_strlit("]");
        reveal_strlit("](");
        reveal_strlit(")");
    }
    match find_from(line, &chars_of("]"), at + skip) {
        Some(middle) => if reads_at(line, &chars_of("]("), middle) {
            match find_from(line, &chars_of(")"), middle + 2) {
                Some(close) => Some(Span { kind, start: at, middle, end: close + 1 }),
                None => None,
            }
        } else {
            None
        },
        None => None,
    }
}

fn end_of_tag(line: &Vec<char>, from: usize) -> (end: usize)
    requires
        from <= line.len(),
    ensures
        end == tag_end(line@, from as int),
        from <= end <= line.len(),
{
    let mut end: usize = from;
    while end < line.len() && (line[end].is_alphanumeric() || line[end] == '_' || line[end] == '-'
        || line[end] == '/')
        invariant
            from <= end <= line.len(),
            tag_end(line@, from as int) == tag_end(line@, end as int),
        decreases line.len() - end,
    {
        end = end + 1;
    }
    end
}

fn span_of_tag(line: &Vec<char>, at: usize) -> (r: Option<Span>)
    requires
        at < line.len(),
    ensures
        match r {
            Some(span) => tag_at(line@, at as int) == Some(span@) && at < span.end <= line.len(),
            None => tag_at(line@, at as int) is None,
        },
{
    if at > 0 && !line[at - 1].is_whitespace() {
        return None;
    }
    let end: usize = end_of_tag(line, at + 1);
    let ghost name = line@.subrange(at + 1, end as int);
    let mut i: usize = at + 1;
    while i < end
        invariant
            at + 1 <= i <= end <= line.len(),
            name == line@.subrange(at + 1, end as int),
            forall|k: int| 0 <= k < i - at - 1 ==> '0' <= #[trigger] name[k] <= '9',
            end == tag_end(line@, at + 1),
            at == 0 || is_white_space(line@[at - 1]),
        decreases end - i,
    {
        assert(name[i - at - 1] == line@[i as int]);
        if !('0' <= line[i] && line[i] <= '9') {
            return Some(Span { kind: SpanKind::Tag, start: at, middle: at, end });
        }
        i = i + 1;
    }
    None
}

/// What begins at a position, if anything does.
fn span_at(line: &Vec<char>, at: usize) -> (r: Option<Span>)
    requires
        at < line.len(),
    ensures
        match r {
            Some(span) => part_at(line@, at as int) == Some(span@) && at < span.end <= line.len(),
            None => part_at(line@, at as int) is None,
        },
{
    proof {
        reveal_strlit("![[");
        reveal_strlit("![");
        reveal_strlit("[[");
    }
    let c: char = line[at];
    if c == '`' {
        Some(span_of_code(line, at))
    } else if c == '\\' {
        if at + 1 < line.len() && is_escapable(line[at + 1]) {
            Some(Span { kind: SpanKind::Literal, start: at, middle: at, end: at + 2 })
        } else {
            None
        }
    } else if c == '!' {
        if reads_at(line, &chars_of("![["), at) {
            if let Some(span) = bracketed_twice(line, at, 3, SpanKind::Embed) {
                return Some(span);
            }
        }
        if reads_at(line, &chars_of("!["), at) {
            bracketed_once(line, at, 2, SpanKind::Image)
        } else {
            None
        }
    } else if c == '[' {
        if reads_at(line, &chars_of("[["), at) {
            if let Some(span) = bracketed_twice(line, at, 2, SpanKind::Wikilink) {
                return Some(span);
            }
        }
        bracketed_once(line, at, 1, SpanKind::Link)
    } else if c == '#' {
        span_of_tag(line, at)
    } else {
        None
    }
}

fn is_escapable(c: char) -> (r: bool)
    ensures
        r == is_punctuation(c),
{
    ('!' <= c && c <= '/') || (':' <= c && c <= '@') || ('[' <= c && c <= '`') || ('{' <= c && c
        <= '~')
}

/// All that stands in a line, from left to right.
pub fn spans_of(line: &Vec<char>) -> (out: Vec<Span>)
    ensures
        parts(out@) == parts_from(line@, 0),
{
    let mut out: Vec<Span> = Vec::new();
    let mut at: usize = 0;
    assert(parts(out@) + parts_from(line@, 0) =~= parts_from(line@, 0));
    while at < line.len()
        invariant
            at <= line.len(),
            parts(out@) + parts_from(line@, at as int) == parts_from(line@, 0),
        decreases line.len() - at,
    {
        match span_at(line, at) {
            Some(span) => {
                let ghost before = parts(out@);
                out.push(span);
                assert(parts(out@) =~= before.push(span@));
                assert(parts(out@) + parts_from(line@, span.end as int) =~= before + (seq![span@]
                    + parts_from(line@, span.end as int)));
                at = span.end;
            },
            None => {
                at = at + 1;
            },
        }
    }
    assert(parts(out@) + Seq::<Part>::empty() =~= parts(out@));
    out
}

// ---------------------------------------------------------------------------
// What reading a line promises
// ---------------------------------------------------------------------------

/// What begins at a position reaches forward, and not beyond the line.
pub proof fn lemma_part_moves_forward(line: Seq<char>, at: int)
    requires
        0 <= at < line.len(),
        part_at(line, at) is Some,
    ensures
        part_at(line, at)->0.start == at,
        at < part_at(line, at)->0.end <= line.len(),
{
    reveal_strlit("]]");
    reveal_strlit("]");
    reveal_strlit("](");
    reveal_strlit(")");
    reveal_strlit("![[");
    reveal_strlit("![");
    reveal_strlit("[[");
    let c = line[at];
    if c == '`' {
        lemma_run_of(line.skip(at), '`');
        let n = run_of(line.skip(at), '`');
        assert(line.skip(at)[0] == '`');
        lemma_closing_ticks(line, n, at + n);
    } else if c == '!' {
        lemma_position_of(line, "]]"@, at + 3);
        lemma_position_of(line, "]"@, at + 2);
        if position_of(line, "]"@, at + 2) is Some {
            lemma_position_of(line, ")"@, position_of(line, "]"@, at + 2)->0 + 2);
        }
    } else if c == '[' {
        lemma_position_of(line, "]]"@, at + 2);
        lemma_position_of(line, "]"@, at + 1);
        if position_of(line, "]"@, at + 1) is Some {
            lemma_position_of(line, ")"@, position_of(line, "]"@, at + 1)->0 + 2);
        }
    } else if c == '#' {
        lemma_tag_end(line, at + 1);
    }
}

proof fn lemma_closing_ticks(line: Seq<char>, n: nat, from: int)
    requires
        0 <= from,
    ensures
        match closing_ticks(line, n, from) {
            Some(at) => from <= at && at + n <= line.len(),
            None => true,
        },
    decreases line.len() - from,
{
    if from < line.len() {
        lemma_run_of(line.skip(from), '`');
        let run = run_of(line.skip(from), '`');
        if line[from] != '`' {
            lemma_closing_ticks(line, n, from + 1);
        } else if run != n && run != 0 {
            lemma_closing_ticks(line, n, from + run);
        }
    }
}

proof fn lemma_tag_end(line: Seq<char>, from: int)
    requires
        0 <= from <= line.len(),
    ensures
        from <= tag_end(line, from) <= line.len(),
    decreases line.len() - from,
{
    if from < line.len() && is_tag_char(line[from]) {
        lemma_tag_end(line, from + 1);
    }
}

/// The parts of a line do not overlap and stand in order; each is what begins at its start.
pub proof fn lemma_parts_stand_apart(line: Seq<char>, at: int)
    requires
        0 <= at <= line.len(),
    ensures
        forall|i: int|
            0 <= i < parts_from(line, at).len() ==> at <= (#[trigger] parts_from(line, at)[i]).start
                < parts_from(line, at)[i].end <= line.len() && part_at(
                line,
                parts_from(line, at)[i].start,
            ) == Some(parts_from(line, at)[i]),
        forall|i: int, j: int|
            0 <= i < j < parts_from(line, at).len() ==> (#[trigger] parts_from(line, at)[i]).end <= (
            #[trigger] parts_from(line, at)[j]).start,
    decreases line.len() - at,
{
    if at < line.len() {
        match part_at(line, at) {
            Some(part) => {
                lemma_part_moves_forward(line, at);
                lemma_parts_stand_apart(line, part.end);
                let rest = parts_from(line, part.end);
                let all = parts_from(line, at);
                assert(all =~= seq![part] + rest);
                assert forall|i: int| 0 <= i < all.len() implies at <= (#[trigger] all[i]).start
                    < all[i].end <= line.len() && part_at(line, all[i].start) == Some(all[i]) by {
                    if i > 0 {
                        assert(all[i] == rest[i - 1]);
                    }
                }
                assert forall|i: int, j: int| 0 <= i < j < all.len() implies (
                #[trigger] all[i]).end <= (#[trigger] all[j]).start by {
                    assert(all[j] == rest[j - 1]);
                    if i > 0 {
                        assert(all[i] == rest[i - 1]);
                    }
                }
            },
            None => {
                lemma_parts_stand_apart(line, at + 1);
            },
        }
    }
}

} // verus!
