//! What the elements of a note are read from.
use crate::headings::{fence_after, heading_of, lemma_run_of, run_of};
use crate::inline::{
    closing_ticks, is_punctuation, is_tag_char, lemma_part_moves_forward, names_something, part_at, parts_from,
    tag_end, Part, SpanKind,
};
use crate::lines::{join, lines, trim, trim_end, trim_start};
use crate::prose::{
    border_from, fence_before, field_of, front_end, front_lines, front_of, front_text, keys_of, prose_of,
    tags_of, text_items, title_of, FieldModel, Prose,
};
use crate::reading::fence_at;
use crate::standalone::{
    callout_lines, callout_of, callouts_in, everything, headings_in, link_of, links_among, links_in,
    parsed, quoted_text, tags_among, tags_in, task_of, tasks_in, wiki_link, without_space, LinkKind,
    LinkModel, ParseOptions, Place, TagModel,
};
use crate::text::{
    contains, is_letter_or_digit, is_white_space, lemma_position_of, occurs_at, position_of, starts_with,
};
use crate::wording::lemma_joining_one_more;
use vstd::prelude::*;

verus! {

// ---------------------------------------------------------------------------
// Front matter and prose
// ---------------------------------------------------------------------------

proof fn lemma_border(all: Seq<Seq<char>>, from: int)
    requires
        0 <= from,
    ensures
        match border_from(all, from) {
            Some(at) => from <= at < all.len() && trim_end(all[at]) == "---"@ && forall|k: int|
                from <= k < at ==> trim_end(#[trigger] all[k]) != "---"@,
            None => forall|k: int|
                from <= k < all.len() ==> trim_end(#[trigger] all[k]) != "---"@,
        },
    decreases all.len() - from,
{
    if from < all.len() && trim_end(all[from]) != "---"@ {
        lemma_border(all, from + 1);
    }
}

/// A note has front matter where its first line is `---` and another such line follows, and
/// the first that follows closes it. White space behind the dashes does not count.
pub proof fn lemma_front_matter_ends_at_the_next_border(all: Seq<Seq<char>>, close: int)
    ensures
        front_end(all) == Some(close) <==> 1 <= close < all.len() && trim_end(all[0]) == "---"@
            && trim_end(all[close]) == "---"@ && forall|k: int|
            1 <= k < close ==> trim_end(#[trigger] all[k]) != "---"@,
        front_end(all) is Some <==> exists|at: int|
            1 <= at < all.len() && trim_end(all[0]) == "---"@ && trim_end(#[trigger] all[at])
                == "---"@,
{
    lemma_border(all, 1);
    match border_from(all, 1) {
        Some(at) => {
            assert(trim_end(all[at]) == "---"@);
        },
        None => {},
    }
}

/// The text of front matter is its lines, each with a line feed behind it.
pub proof fn lemma_front_matter_keeps_its_lines(inner: Seq<Seq<char>>)
    ensures
        front_text(inner) == join(inner.push(Seq::empty()), "\n"@),
    decreases inner.len(),
{
    lemma_joining_one_more(inner, Seq::empty(), "\n"@);
    if inner.len() > 0 {
        let front = inner.drop_last();
        lemma_front_matter_keeps_its_lines(front);
        lemma_joining_one_more(front, Seq::empty(), "\n"@);
        lemma_joining_one_more(front, inner.last(), "\n"@);
        assert(front.push(inner.last()) =~= inner);
        reveal_strlit("\n");
        assert("\n"@ =~= seq!['\n']);
        assert(inner.last().push('\n') =~= inner.last() + "\n"@);
        if front.len() > 0 {
            assert(front_text(inner) =~= join(inner.push(Seq::empty()), "\n"@));
        } else {
            assert(front =~= Seq::empty());
            assert(front_text(inner) =~= join(inner.push(Seq::empty()), "\n"@));
        }
    }
}

proof fn lemma_fences_behind_the_front(all: Seq<Seq<char>>, i: int)
    requires
        0 <= front_lines(all) <= i <= all.len(),
    ensures
        fence_before(all, i) == fence_at(all.skip(front_lines(all)), i - front_lines(all)),
    decreases i,
{
    let first = front_lines(all);
    if i > first {
        lemma_fences_behind_the_front(all, i - 1);
        assert(all.skip(first)[i - 1 - first] == all[i - 1]);
    }
}

proof fn lemma_prose_has(all: Seq<Seq<char>>, n: int, i: int)
    requires
        0 <= i < n <= all.len(),
        0 <= front_lines(all) <= i,
        fence_before(all, i) is None,
        fence_before(all, i + 1) is None,
    ensures
        prose_of(all, n).contains(Prose { number: (i + 1) as nat, text: all[i] }),
    decreases n,
{
    let line = Prose { number: (i + 1) as nat, text: all[i] };
    let now = prose_of(all, n);
    if i == n - 1 {
        assert(now.last() == line);
    } else {
        lemma_prose_has(all, n - 1, i);
        let before = prose_of(all, n - 1);
        let k = choose|k: int| 0 <= k < before.len() && before[k] == line;
        assert(now[k] == line);
    }
}

/// A line of a note is read unless it belongs to the front matter, stands in a fence, or
/// opens one.
pub proof fn lemma_every_line_of_prose_is_read(all: Seq<Seq<char>>, i: int)
    requires
        0 <= i < all.len(),
    ensures
        ({
            let first: int = match front_end(all) {
                Some(close) => close + 1,
                None => 0,
            };
            first <= i && fence_at(all.skip(first), i - first) is None && fence_after(all[i], None)
                is None ==> prose_of(all, all.len() as int).contains(
                Prose { number: (i + 1) as nat, text: all[i] },
            )
        }),
        forall|line: Prose| #[trigger]
            prose_of(all, all.len() as int).contains(line) && line.number == i + 1 ==> {
                let first: int = match front_end(all) {
                    Some(close) => close + 1,
                    None => 0,
                };
                &&& line.text == all[i]
                &&& first <= i
                &&& fence_at(all.skip(first), i - first) is None
                &&& fence_after(all[i], None) is None
            },
{
    lemma_border(all, 1);
    let first = front_lines(all);
    if first <= i {
        lemma_fences_behind_the_front(all, i);
        lemma_fences_behind_the_front(all, i + 1);
        if fence_before(all, i) is None && fence_after(all[i], None) is None {
            lemma_prose_has(all, all.len() as int, i);
        }
    }
    let prose = prose_of(all, all.len() as int);
    assert forall|line: Prose| #[trigger] prose.contains(line) && line.number == i + 1 implies {
        &&& line.text == all[i]
        &&& first <= i
        &&& fence_at(all.skip(first), i - first) is None
        &&& fence_after(all[i], None) is None
    } by {
        let k = choose|k: int| 0 <= k < prose.len() && prose[k] == line;
        crate::prose::lemma_prose_lines_are_prose(all, all.len() as int, k);
    }
}

// ---------------------------------------------------------------------------
// Fields of front matter
// ---------------------------------------------------------------------------

proof fn lemma_field(data: Seq<FieldModel>, key: Seq<char>)
    ensures
        match field_of(data, key) {
            Some(field) => field.key == key && data.contains(field),
            None => forall|i: int| 0 <= i < data.len() ==> (#[trigger] data[i]).key != key,
        },
    decreases data.len(),
{
    if data.len() > 0 {
        if data[0].key == key {
            assert(data.contains(data[0]));
        } else {
            let rest = data.drop_first();
            lemma_field(rest, key);
            match field_of(rest, key) {
                Some(field) => {
                    let k = choose|k: int| 0 <= k < rest.len() && rest[k] == field;
                    assert(data[k + 1] == field);
                },
                None => {
                    assert forall|i: int| 0 <= i < data.len() implies (#[trigger] data[i]).key
                        != key by {
                        if i > 0 {
                            assert(data[i] == rest[i - 1]);
                        }
                    }
                },
            }
        }
    }
}

/// The field `title` of front matter is its title, and the field `tags` holds its tags: the
/// texts of a list, or one text. Other fields do not count.
pub proof fn lemma_title_and_tags_are_fields(data: Seq<FieldModel>, i: int)
    requires
        keys_of(data).no_duplicates(),
    ensures
        0 <= i < data.len() && data[i].key == "title"@ ==> title_of(data) == data[i].text,
        0 <= i < data.len() && data[i].key == "tags"@ ==> match data[i].items {
            Some(items) => tags_of(data) == text_items(items),
            None => match data[i].text {
                Some(text) => tags_of(data) == seq![text],
                None => tags_of(data).len() == 0,
            },
        },
        title_of(data) is Some ==> keys_of(data).contains("title"@),
        tags_of(data).len() > 0 ==> keys_of(data).contains("tags"@),
{
    lemma_field(data, "title"@);
    lemma_field(data, "tags"@);
    assert forall|key: Seq<char>| field_of(data, key) is Some && data.contains(
        #[trigger] field_of(data, key)->0,
    ) && field_of(data, key)->0.key == key implies keys_of(data).contains(key) && (0 <= i
        < data.len() && data[i].key == key ==> field_of(data, key) == Some(data[i])) by {
        let field = field_of(data, key)->0;
        let k = choose|k: int| 0 <= k < data.len() && data[k] == field;
        assert(keys_of(data)[k] == key);
        if 0 <= i < data.len() && data[i].key == key {
            assert(keys_of(data)[i] == key);
        }
    }
}

/// The texts of a list are those of its first items and then those of the rest; an item
/// that is no text gives none.
pub proof fn lemma_texts_of_a_list(
    a: Seq<Option<Seq<char>>>,
    b: Seq<Option<Seq<char>>>,
    text: Seq<char>,
)
    ensures
        text_items(a + b) == text_items(a) + text_items(b),
        text_items(seq![Some(text)]) == seq![text],
        text_items(seq![None]).len() == 0,
    decreases b.len(),
{
    assert(seq![Some(text)].drop_last() =~= Seq::<Option<Seq<char>>>::empty());
    assert(seq![None::<Seq<char>>].drop_last() =~= Seq::<Option<Seq<char>>>::empty());
    assert(text_items(Seq::empty()) =~= Seq::empty());
    assert(text_items(seq![Some(text)]) =~= seq![text]);
    if b.len() == 0 {
        assert(a + b =~= a);
        assert(text_items(a + b) =~= text_items(a) + text_items(b));
    } else {
        lemma_texts_of_a_list(a, b.drop_last(), text);
        assert((a + b).drop_last() =~= a + b.drop_last());
        assert(text_items(a + b) =~= text_items(a) + text_items(b));
    }
}

// ---------------------------------------------------------------------------
// Headings, tasks, links and tags, line by line
// ---------------------------------------------------------------------------

/// The headings of a note are those of its lines, one line after the other, each at the
/// start of its line.
pub proof fn lemma_headings_line_by_line(a: Seq<Prose>, b: Seq<Prose>, line: Prose)
    ensures
        headings_in(a + b) == headings_in(a) + headings_in(b),
        match heading_of(line.text) {
            Some(h) => headings_in(seq![line]).len() == 1 && headings_in(seq![line])[0].level
                == h.level && headings_in(seq![line])[0].text == h.text && headings_in(
                seq![line],
            )[0].position == (Place { line: line.number, column: 1 }),
            None => headings_in(seq![line]).len() == 0,
        },
    decreases b.len(),
{
    assert(seq![line].drop_last() =~= Seq::<Prose>::empty());
    assert(headings_in(Seq::empty()) =~= Seq::empty());
    if b.len() == 0 {
        assert(a + b =~= a);
        assert(headings_in(a + b) =~= headings_in(a) + headings_in(b));
    } else {
        lemma_headings_line_by_line(a, b.drop_last(), line);
        assert((a + b).drop_last() =~= a + b.drop_last());
        assert(headings_in(a + b) =~= headings_in(a) + headings_in(b));
    }
}

/// The tasks of a note are those of its lines, one line after the other, each at the start
/// of its line.
pub proof fn lemma_tasks_line_by_line(a: Seq<Prose>, b: Seq<Prose>, line: Prose)
    ensures
        tasks_in(a + b) == tasks_in(a) + tasks_in(b),
        match task_of(line.text) {
            Some((done, said)) => tasks_in(seq![line]).len() == 1 && tasks_in(
                seq![line],
            )[0].is_completed == done && tasks_in(seq![line])[0].content == said && tasks_in(
                seq![line],
            )[0].position == (Place { line: line.number, column: 1 }),
            None => tasks_in(seq![line]).len() == 0,
        },
    decreases b.len(),
{
    assert(seq![line].drop_last() =~= Seq::<Prose>::empty());
    assert(tasks_in(Seq::empty()) =~= Seq::empty());
    if b.len() == 0 {
        assert(a + b =~= a);
        assert(tasks_in(a + b) =~= tasks_in(a) + tasks_in(b));
    } else {
        lemma_tasks_line_by_line(a, b.drop_last(), line);
        assert((a + b).drop_last() =~= a + b.drop_last());
        assert(tasks_in(a + b) =~= tasks_in(a) + tasks_in(b));
    }
}

proof fn lemma_links_among(
    a: Seq<Part>,
    b: Seq<Part>,
    part: Part,
    line: Seq<char>,
    number: nat,
    kind: SpanKind,
)
    ensures
        links_among(a + b, line, number, kind) == links_among(a, line, number, kind) + links_among(
            b,
            line,
            number,
            kind,
        ),
        links_among(seq![part], line, number, kind) == if part.kind == kind {
            seq![link_of(line, part, number)]
        } else {
            Seq::empty()
        },
    decreases b.len(),
{
    assert(seq![part].drop_last() =~= Seq::<Part>::empty());
    assert(links_among(Seq::empty(), line, number, kind) =~= Seq::empty());
    assert(links_among(seq![part], line, number, kind) =~= if part.kind == kind {
        seq![link_of(line, part, number)]
    } else {
        Seq::empty()
    });
    if b.len() == 0 {
        assert(a + b =~= a);
        assert(links_among(a + b, line, number, kind) =~= links_among(a, line, number, kind)
            + links_among(b, line, number, kind));
    } else {
        lemma_links_among(a, b.drop_last(), part, line, number, kind);
        assert((a + b).drop_last() =~= a + b.drop_last());
        assert(links_among(a + b, line, number, kind) =~= links_among(a, line, number, kind)
            + links_among(b, line, number, kind));
    }
}

/// The links of a note are those of its lines, one line after the other, and the links of a
/// line are its parts of that kind, from left to right.
pub proof fn lemma_links_line_by_line(
    a: Seq<Prose>,
    b: Seq<Prose>,
    line: Prose,
    before: Seq<Part>,
    part: Part,
    after: Seq<Part>,
    kind: SpanKind,
)
    requires
        parts_from(line.text, 0) == before + seq![part] + after,
    ensures
        links_in(a + b, kind) == links_in(a, kind) + links_in(b, kind),
        links_in(seq![line], kind) == links_among(before, line.text, line.number, kind) + (
        if part.kind == kind {
            seq![link_of(line.text, part, line.number)]
        } else {
            Seq::empty()
        }) + links_among(after, line.text, line.number, kind),
    decreases b.len(),
{
    assert(seq![line].drop_last() =~= Seq::<Prose>::empty());
    assert(links_in(Seq::empty(), kind) =~= Seq::empty());
    lemma_links_among(before, seq![part], part, line.text, line.number, kind);
    lemma_links_among(before + seq![part], after, part, line.text, line.number, kind);
    assert(links_in(seq![line], kind) =~= links_among(before, line.text, line.number, kind) + (
    if part.kind == kind {
        seq![link_of(line.text, part, line.number)]
    } else {
        Seq::empty()
    }) + links_among(after, line.text, line.number, kind));
    if b.len() == 0 {
        assert(a + b =~= a);
        assert(links_in(a + b, kind) =~= links_in(a, kind) + links_in(b, kind));
    } else {
        lemma_links_line_by_line(a, b.drop_last(), line, before, part, after, kind);
        assert((a + b).drop_last() =~= a + b.drop_last());
        assert(links_in(a + b, kind) =~= links_in(a, kind) + links_in(b, kind));
    }
}

proof fn lemma_tags_among(a: Seq<Part>, b: Seq<Part>, part: Part, line: Seq<char>, number: nat)
    ensures
        tags_among(a + b, line, number) == tags_among(a, line, number) + tags_among(
            b,
            line,
            number,
        ),
        part.kind != SpanKind::Tag ==> tags_among(seq![part], line, number).len() == 0,
        part.kind == SpanKind::Tag ==> tags_among(seq![part], line, number) == seq![
            TagModel {
                name: line.subrange(part.start + 1, part.end),
                position: Place { line: number, column: (part.start + 1) as nat },
            },
        ],
    decreases b.len(),
{
    assert(seq![part].drop_last() =~= Seq::<Part>::empty());
    assert(tags_among(Seq::empty(), line, number) =~= Seq::empty());
    if part.kind == SpanKind::Tag {
        assert(tags_among(seq![part], line, number) =~= seq![
            TagModel {
                name: line.subrange(part.start + 1, part.end),
                position: Place { line: number, column: (part.start + 1) as nat },
            },
        ]);
    }
    if b.len() == 0 {
        assert(a + b =~= a);
        assert(tags_among(a + b, line, number) =~= tags_among(a, line, number) + tags_among(
            b,
            line,
            number,
        ));
    } else {
        lemma_tags_among(a, b.drop_last(), part, line, number);
        assert((a + b).drop_last() =~= a + b.drop_last());
        assert(tags_among(a + b, line, number) =~= tags_among(a, line, number) + tags_among(
            b,
            line,
            number,
        ));
    }
}

/// The tags of a note are those of its lines, one line after the other, and the tags of a
/// line are its parts of that kind, from left to right: each is named by what stands behind
/// the hash sign, and stands where the sign does.
pub proof fn lemma_tags_line_by_line(
    a: Seq<Prose>,
    b: Seq<Prose>,
    line: Prose,
    before: Seq<Part>,
    part: Part,
    after: Seq<Part>,
)
    requires
        parts_from(line.text, 0) == before + seq![part] + after,
    ensures
        tags_in(a + b) == tags_in(a) + tags_in(b),
        part.kind != SpanKind::Tag ==> tags_in(seq![line]) == tags_among(
            before,
            line.text,
            line.number,
        ) + tags_among(after, line.text, line.number),
        part.kind == SpanKind::Tag ==> tags_in(seq![line]) == tags_among(
            before,
            line.text,
            line.number,
        ) + seq![
            TagModel {
                name: line.text.subrange(part.start + 1, part.end),
                position: Place { line: line.number, column: (part.start + 1) as nat },
            },
        ] + tags_among(after, line.text, line.number),
    decreases b.len(),
{
    assert(seq![line].drop_last() =~= Seq::<Prose>::empty());
    assert(tags_in(Seq::empty()) =~= Seq::empty());
    lemma_tags_among(before, seq![part], part, line.text, line.number);
    lemma_tags_among(before + seq![part], after, part, line.text, line.number);
    assert(tags_in(seq![line]) =~= tags_among(before + seq![part] + after, line.text, line.number));
    if part.kind != SpanKind::Tag {
        assert(tags_in(seq![line]) =~= tags_among(before, line.text, line.number) + tags_among(
            after,
            line.text,
            line.number,
        ));
    }
    if b.len() == 0 {
        assert(a + b =~= a);
        assert(tags_in(a + b) =~= tags_in(a) + tags_in(b));
    } else {
        lemma_tags_line_by_line(a, b.drop_last(), line, before, part, after);
        assert((a + b).drop_last() =~= a + b.drop_last());
        assert(tags_in(a + b) =~= tags_in(a) + tags_in(b));
    }
}

/// Whatever begins somewhere in a line is a part of it, or stands inside one.
pub proof fn lemma_no_part_is_passed_over(line: Seq<char>, from: int, at: int) -> (k: int)
    requires
        0 <= from <= at < line.len(),
        part_at(line, at) is Some,
    ensures
        0 <= k < parts_from(line, from).len(),
        parts_from(line, from)[k].start <= at < parts_from(line, from)[k].end,
    decreases line.len() - from,
{
    match part_at(line, from) {
        Some(part) => {
            lemma_part_moves_forward(line, from);
            let rest = parts_from(line, part.end);
            assert(parts_from(line, from) =~= seq![part] + rest);
            if at < part.end {
                0
            } else {
                let k = lemma_no_part_is_passed_over(line, part.end, at);
                assert(parts_from(line, from)[k + 1] == rest[k]);
                k + 1
            }
        },
        None => lemma_no_part_is_passed_over(line, from + 1, at),
    }
}

// ---------------------------------------------------------------------------
// What the parts of a line look like
// ---------------------------------------------------------------------------

/// The first place behind `from` at which a text occurs, where no earlier one does.
proof fn lemma_first_place(line: Seq<char>, needle: Seq<char>, from: int, at: int)
    requires
        from <= at,
        occurs_at(line, needle, at),
        forall|k: int| from <= k < at ==> !occurs_at(line, needle, k),
    ensures
        position_of(line, needle, from) == Some(at),
{
    lemma_position_of(line, needle, from);
}

/// Two brackets on each side of a text that is not blank and holds no such end make a link,
/// or an embed behind an exclamation mark; the link stands where the first character does.
pub proof fn lemma_double_brackets_make_links(
    before: Seq<char>,
    inner: Seq<char>,
    after: Seq<char>,
    number: nat,
)
    requires
        trim(inner).len() > 0,
        forall|k: int|
            0 <= k < inner.len() && #[trigger] inner[k] == ']' ==> k + 1 < inner.len() && inner[k
                + 1] != ']',
    ensures
        ({
            let line = before + "[["@ + inner + "]]"@ + after;
            let at = before.len() as int;
            let part = Part {
                kind: SpanKind::Wikilink,
                start: at,
                middle: at,
                end: at + 4 + inner.len(),
            };
            &&& part_at(line, at) == Some(part)
            &&& link_of(line, part, number) == wiki_link(
                inner,
                false,
                Place { line: number, column: (before.len() + 1) as nat },
            )
        }),
        ({
            let line = before + "![["@ + inner + "]]"@ + after;
            let at = before.len() as int;
            let part = Part {
                kind: SpanKind::Embed,
                start: at,
                middle: at,
                end: at + 5 + inner.len(),
            };
            &&& part_at(line, at) == Some(part)
            &&& link_of(line, part, number) == wiki_link(
                inner,
                true,
                Place { line: number, column: (before.len() + 1) as nat },
            )
        }),
{
    reveal_strlit("[[");
    reveal_strlit("![[");
    reveal_strlit("]]");
    lemma_brackets(before, "[["@, inner, after);
    lemma_brackets(before, "![["@, inner, after);
}

proof fn lemma_brackets(before: Seq<char>, open: Seq<char>, inner: Seq<char>, after: Seq<char>)
    requires
        forall|k: int|
            0 <= k < inner.len() && #[trigger] inner[k] == ']' ==> k + 1 < inner.len() && inner[k
                + 1] != ']',
    ensures
        ({
            let line = before + open + inner + "]]"@ + after;
            let from = (before.len() + open.len()) as int;
            &&& occurs_at(line, open, before.len() as int)
            &&& open.len() > 0 ==> line[before.len() as int] == open[0]
            &&& position_of(line, "]]"@, from) == Some(from + inner.len())
            &&& line.subrange(from, from + inner.len()) == inner
        }),
{
    reveal_strlit("]]");
    let line = before + open + inner + "]]"@ + after;
    let at = before.len() as int;
    let from = at + open.len();
    let close = from + inner.len();
    assert(line.subrange(at, from) =~= open);
    assert(line.subrange(from, close) =~= inner);
    assert(line.subrange(close, close + 2) =~= "]]"@);
    assert forall|k: int| from <= k < close implies !occurs_at(line, "]]"@, k) by {
        if occurs_at(line, "]]"@, k) {
            let two = line.subrange(k, k + 2);
            assert(two[0] == line[k] && two[1] == line[k + 1]);
            assert(line[k] == inner[k - from]);
            assert(inner[k - from] == ']');
            assert(line[k + 1] == inner[k - from + 1]);
        }
    }
    lemma_first_place(line, "]]"@, from, close);
}

/// What stands before the first bar of a link is its target, what stands behind it is shown;
/// without a bar all of it is the target. White space around them does not count. A target
/// with `#^` names a block, one with another `#` a heading.
pub proof fn lemma_bars_part_target_and_text(
    target: Seq<char>,
    shown: Seq<char>,
    is_embed: bool,
    position: Place,
)
    requires
        !target.contains('|'),
    ensures
        ({
            let kind = if is_embed {
                LinkKind::Embed
            } else if contains(trim(target), "#^"@) {
                LinkKind::BlockRef
            } else if contains(trim(target), "#"@) {
                LinkKind::HeadingRef
            } else {
                LinkKind::Wikilink
            };
            &&& wiki_link(target + "|"@ + shown, is_embed, position) == (LinkModel {
                kind,
                target: trim(target),
                display: Some(trim(shown)),
                position,
            })
            &&& wiki_link(target, is_embed, position) == (LinkModel {
                kind,
                target: trim(target),
                display: None,
                position,
            })
        }),
{
    reveal_strlit("|");
    let inner = target + "|"@ + shown;
    let bar = target.len() as int;
    assert(inner.subrange(bar, bar + 1) =~= "|"@);
    assert forall|k: int| 0 <= k < bar implies !occurs_at(inner, "|"@, k) by {
        if occurs_at(inner, "|"@, k) {
            assert(inner.subrange(k, k + 1)[0] == target[k]);
        }
    }
    lemma_first_place(inner, "|"@, 0, bar);
    assert(inner.take(bar) =~= target);
    assert(inner.skip(bar + 1) =~= shown);
    lemma_position_of(target, "|"@, 0);
    match position_of(target, "|"@, 0) {
        Some(k) => {
            assert(target.subrange(k, k + 1)[0] == target[k]);
        },
        None => {},
    }
}

/// A text in brackets with a target in parentheses behind it is a link that shows the text;
/// behind an exclamation mark it is an image.
pub proof fn lemma_brackets_and_parentheses_make_links(
    before: Seq<char>,
    text: Seq<char>,
    target: Seq<char>,
    after: Seq<char>,
    number: nat,
)
    requires
        !text.contains(']'),
        text.len() > 0 ==> text[0] != '[',
        !target.contains(')'),
    ensures
        ({
            let line = before + "["@ + text + "]("@ + target + ")"@ + after;
            let at = before.len() as int;
            let part = Part {
                kind: SpanKind::Link,
                start: at,
                middle: at + 1 + text.len(),
                end: at + 4 + text.len() + target.len(),
            };
            &&& part_at(line, at) == Some(part)
            &&& link_of(line, part, number) == (LinkModel {
                kind: LinkKind::Markdown,
                target: trim(target),
                display: Some(text),
                position: Place { line: number, column: (before.len() + 1) as nat },
            })
        }),
        ({
            let line = before + "!["@ + text + "]("@ + target + ")"@ + after;
            let at = before.len() as int;
            part_at(line, at) == Some(
                Part {
                    kind: SpanKind::Image,
                    start: at,
                    middle: at + 2 + text.len(),
                    end: at + 5 + text.len() + target.len(),
                },
            )
        }),
{
    reveal_strlit("[");
    reveal_strlit("![");
    reveal_strlit("[[");
    reveal_strlit("![[");
    reveal_strlit("](");
    reveal_strlit(")");
    lemma_link_brackets(before, "["@, text, target, after);
    lemma_link_brackets(before, "!["@, text, target, after);
    let at = before.len() as int;
    let plain = before + "["@ + text + "]("@ + target + ")"@ + after;
    if occurs_at(plain, "[["@, at) {
        assert(plain.subrange(at, at + 2)[1] == plain[at + 1]);
    }
    let image = before + "!["@ + text + "]("@ + target + ")"@ + after;
    if occurs_at(image, "![["@, at) {
        assert(image.subrange(at, at + 3)[2] == image[at + 2]);
    }
}

proof fn lemma_link_brackets(
    before: Seq<char>,
    open: Seq<char>,
    text: Seq<char>,
    target: Seq<char>,
    after: Seq<char>,
)
    requires
        !text.contains(']'),
        !target.contains(')'),
        open.len() > 0,
    ensures
        ({
            let line = before + open + text + "]("@ + target + ")"@ + after;
            let from = (before.len() + open.len()) as int;
            let middle = from + text.len();
            &&& occurs_at(line, open, before.len() as int)
            &&& line[before.len() as int] == open[0]
            &&& position_of(line, "]"@, from) == Some(middle)
            &&& occurs_at(line, "]("@, middle)
            &&& position_of(line, ")"@, middle + 2) == Some(middle + 2 + target.len())
            &&& line.subrange(from, middle) == text
            &&& line.subrange(middle + 2, middle + 2 + target.len()) == target
            &&& text.len() > 0 ==> line[from] == text[0]
            &&& text.len() == 0 ==> line[from] == ']'
        }),
{
    reveal_strlit("]");
    reveal_strlit("](");
    reveal_strlit(")");
    let line = before + open + text + "]("@ + target + ")"@ + after;
    let at = before.len() as int;
    let from = at + open.len();
    let middle = from + text.len();
    let close = middle + 2 + target.len();
    assert(line.subrange(at, from) =~= open);
    assert(line.subrange(from, middle) =~= text);
    assert(line.subrange(middle, middle + 1) =~= "]"@);
    assert(line.subrange(middle, middle + 2) =~= "]("@);
    assert(line.subrange(middle + 2, close) =~= target);
    assert(line.subrange(close, close + 1) =~= ")"@);
    assert forall|k: int| from <= k < middle implies !occurs_at(line, "]"@, k) by {
        if occurs_at(line, "]"@, k) {
            assert(line.subrange(k, k + 1)[0] == line[k]);
            assert(line[k] == text[k - from]);
        }
    }
    lemma_first_place(line, "]"@, from, middle);
    assert forall|k: int| middle + 2 <= k < close implies !occurs_at(line, ")"@, k) by {
        if occurs_at(line, ")"@, k) {
            assert(line.subrange(k, k + 1)[0] == line[k]);
            assert(line[k] == target[k - middle - 2]);
        }
    }
    lemma_first_place(line, ")"@, middle + 2, close);
}

proof fn lemma_tag_reaches(line: Seq<char>, from: int, to: int)
    requires
        0 <= from <= to <= line.len(),
        forall|k: int| from <= k < to ==> is_tag_char(#[trigger] line[k]),
        to == line.len() || !is_tag_char(line[to]),
    ensures
        tag_end(line, from) == to,
    decreases to - from,
{
    if from < to {
        lemma_tag_reaches(line, from + 1, to);
    }
}

/// A hash sign at the start of a line or behind white space makes a tag of the letters,
/// digits, underscores, hyphens and slashes behind it, unless they are all digits. Elsewhere
/// it makes none.
pub proof fn lemma_hash_signs_make_tags(before: Seq<char>, name: Seq<char>, after: Seq<char>)
    requires
        forall|k: int| 0 <= k < name.len() ==> is_tag_char(#[trigger] name[k]),
        after.len() == 0 || !is_tag_char(after[0]),
    ensures
        ({
            let line = before + "#"@ + name + after;
            let at = before.len() as int;
            let part = Part {
                kind: SpanKind::Tag,
                start: at,
                middle: at,
                end: at + 1 + name.len(),
            };
            let is_free = before.len() == 0 || is_white_space(before.last());
            let is_number = forall|k: int| 0 <= k < name.len() ==> '0' <= #[trigger] name[k] <= '9';
            &&& is_free && !is_number ==> part_at(line, at) == Some(part)
            &&& !is_free || is_number ==> part_at(line, at) is None
            &&& line.subrange(at + 1, at + 1 + name.len()) == name
        }),
{
    reveal_strlit("#");
    let line = before + "#"@ + name + after;
    let at = before.len() as int;
    let end = at + 1 + name.len();
    assert(line[at] == '#');
    assert forall|k: int| at + 1 <= k < end implies is_tag_char(#[trigger] line[k]) by {
        assert(line[k] == name[k - at - 1]);
    }
    lemma_tag_reaches(line, at + 1, end);
    assert(line.subrange(at + 1, end) =~= name);
    if before.len() > 0 {
        assert(line[at - 1] == before.last());
    }
    if names_something(name) {
        let k = choose|k: int| 0 <= k < name.len() && !('0' <= #[trigger] name[k] <= '9');
        assert(!('0' <= name[k] <= '9'));
    } else {
        assert forall|k: int| 0 <= k < name.len() implies '0' <= #[trigger] name[k] <= '9' by {}
    }
}

/// A tag can hold letters and digits, `_`, `-` and `/`, and nothing else.
pub proof fn lemma_characters_of_tags(c: char)
    ensures
        c == '_' || c == '-' || c == '/' ==> is_tag_char(c),
        c != '_' && c != '-' && c != '/' ==> is_tag_char(c) == is_letter_or_digit(c),
{
}

/// A backslash takes the character behind it out of the reading, where that is a sign.
pub proof fn lemma_backslashes_take_signs_out(before: Seq<char>, c: char, after: Seq<char>)
    ensures
        ({
            let line = before.push('\\').push(c) + after;
            let at = before.len() as int;
            if is_punctuation(c) {
                part_at(line, at) == Some(
                    Part { kind: SpanKind::Literal, start: at, middle: at, end: at + 2 },
                )
            } else {
                part_at(line, at) is None
            }
        }),
        c == '[' || c == ']' || c == '!' || c == '#' || c == '`' || c == '\\' ==> is_punctuation(c),
        'a' <= c <= 'z' || 'A' <= c <= 'Z' || '0' <= c <= '9' || c == ' ' ==> !is_punctuation(c),
{
    let line = before.push('\\').push(c) + after;
    let at = before.len() as int;
    assert(line[at] == '\\');
    assert(line[at + 1] == c);
}

proof fn lemma_ticks_are_next(line: Seq<char>, n: nat, from: int, to: int)
    requires
        0 <= from <= to <= line.len(),
        forall|k: int| from <= k < to ==> #[trigger] line[k] != '`',
    ensures
        closing_ticks(line, n, from) == closing_ticks(line, n, to),
    decreases to - from,
{
    if from < to {
        lemma_ticks_are_next(line, n, from + 1, to);
    }
}

proof fn lemma_run_at(line: Seq<char>, at: int, n: nat)
    requires
        0 <= at,
        at + n <= line.len(),
        forall|k: int| at <= k < at + n ==> #[trigger] line[k] == '`',
        at + n < line.len() ==> line[at + n] != '`',
    ensures
        run_of(line.skip(at), '`') == n,
{
    let rest = line.skip(at);
    lemma_run_of(rest, '`');
    let m = run_of(rest, '`') as int;
    if m < n {
        assert(rest[m] == line[at + m]);
    } else if n < m {
        assert(rest[n as int] == line[at + n]);
    }
}

/// What stands between two equal runs of backticks is code, and is not read for other parts.
/// Backticks that nothing closes stand for themselves.
pub proof fn lemma_backticks_enclose_code(
    before: Seq<char>,
    n: nat,
    code: Seq<char>,
    after: Seq<char>,
)
    requires
        n > 0,
        code.len() > 0,
        !code.contains('`'),
        after.len() == 0 || after[0] != '`',
    ensures
        ({
            let ticks = Seq::new(n, |i: int| '`');
            let at = before.len() as int;
            &&& part_at(before + ticks + code + ticks + after, at) == Some(
                Part {
                    kind: SpanKind::Code,
                    start: at,
                    middle: at,
                    end: at + 2 * n + code.len(),
                },
            )
            &&& part_at(before + ticks + code, at) == Some(
                Part { kind: SpanKind::Literal, start: at, middle: at, end: at + n },
            )
        }),
{
    let ticks = Seq::new(n, |i: int| '`');
    let at = before.len() as int;
    let line = before + ticks + code + ticks + after;
    let close = at + n + code.len();
    assert(line[at] == ticks[0]);
    assert forall|k: int| at <= k < at + n implies #[trigger] line[k] == '`' by {
        assert(line[k] == ticks[k - at]);
    }
    assert(line[at + n] == code[0]);
    lemma_run_at(line, at, n);
    assert forall|k: int| at + n <= k < close implies #[trigger] line[k] != '`' by {
        assert(line[k] == code[k - at - n]);
    }
    lemma_ticks_are_next(line, n, at + n, close);
    assert forall|k: int| close <= k < close + n implies #[trigger] line[k] == '`' by {
        assert(line[k] == ticks[k - close]);
    }
    if close + n < line.len() {
        assert(line[close + n] == after[0]);
    }
    assert(line[close] == '`');
    lemma_run_at(line, close, n);
    let open = before + ticks + code;
    assert(open[at] == ticks[0]);
    assert forall|k: int| at <= k < at + n implies #[trigger] open[k] == '`' by {
        assert(open[k] == ticks[k - at]);
    }
    assert(open[at + n] == code[0]);
    lemma_run_at(open, at, n);
    assert forall|k: int| at + n <= k < close implies #[trigger] open[k] != '`' by {
        assert(open[k] == code[k - at - n]);
    }
    lemma_ticks_are_next(open, n, at + n, close);
}

/// Other characters begin nothing.
pub proof fn lemma_other_characters_begin_nothing(line: Seq<char>, at: int)
    requires
        line[at] != '`',
        line[at] != '\\',
        line[at] != '!',
        line[at] != '[',
        line[at] != '#',
    ensures
        part_at(line, at) is None,
{
}

// ---------------------------------------------------------------------------
// Tasks and callouts
// ---------------------------------------------------------------------------

/// White space before a task or a quotation does not count.
pub proof fn lemma_indents_do_not_count(c: char, line: Seq<char>)
    requires
        is_white_space(c),
    ensures
        task_of(seq![c] + line) == task_of(line),
        quoted_text(seq![c] + line) == quoted_text(line),
        callout_of(seq![c] + line) == callout_of(line),
{
    assert((seq![c] + line).drop_first() =~= line);
}

/// A bullet, a space and a box make a task of the text behind them, if there is one, with a
/// space before it: it is completed where the box is crossed.
pub proof fn lemma_boxes_make_tasks(bullet: char, mark: char, text: Seq<char>)
    requires
        !is_white_space(bullet),
    ensures
        ({
            let line = seq![bullet, ' ', '[', mark, ']'] + text;
            let is_task = (bullet == '-' || bullet == '*' || bullet == '+') && (mark == ' ' || mark
                == 'x' || mark == 'X') && (text.len() == 0 || text[0] == ' ');
            &&& is_task && mark == ' ' ==> task_of(line) == Some((false, trim(text)))
            &&& is_task && mark != ' ' ==> task_of(line) == Some((true, trim(text)))
            &&& !is_task ==> task_of(line) is None
        }),
{
    let line = seq![bullet, ' ', '[', mark, ']'] + text;
    assert(line[0] == bullet);
    assert(trim_start(line) == line);
    assert(line.skip(5) =~= text);
}

/// Every task has a space behind its bullet and a box behind that.
pub proof fn lemma_tasks_have_boxes(line: Seq<char>)
    requires
        line.len() > 0 ==> !is_white_space(line[0]),
        task_of(line) is Some,
    ensures
        line.len() >= 5,
        line[1] == ' ',
        line[2] == '[',
        line[4] == ']',
{
    assert(trim_start(line) == line);
}

proof fn lemma_gap(gap: Seq<char>, rest: Seq<char>)
    requires
        forall|k: int| 0 <= k < gap.len() ==> is_white_space(#[trigger] gap[k]),
        rest.len() > 0,
        !is_white_space(rest[0]),
    ensures
        trim_start(gap + rest) == rest,
    decreases gap.len(),
{
    if gap.len() == 0 {
        assert(gap + rest =~= rest);
    } else {
        assert((gap + rest)[0] == gap[0]);
        assert((gap + rest).drop_first() =~= gap.drop_first() + rest);
        assert forall|k: int| 0 <= k < gap.drop_first().len() implies is_white_space(
            #[trigger] gap.drop_first()[k],
        ) by {
            assert(gap.drop_first()[k] == gap[k + 1]);
        }
        lemma_gap(gap.drop_first(), rest);
    }
}

/// A quotation sign and `[!kind]` open a callout of that kind. A plus or a minus sign behind
/// them makes it foldable, and the rest of the line is its title, unless it is blank.
pub proof fn lemma_callouts_are_opened_by_their_kind(
    gap: Seq<char>,
    kind: Seq<char>,
    is_foldable: bool,
    sign: char,
    text: Seq<char>,
)
    requires
        forall|k: int| 0 <= k < gap.len() ==> is_white_space(#[trigger] gap[k]),
        kind.len() > 0,
        !kind.contains(']'),
        is_foldable ==> sign == '+' || sign == '-',
        !is_foldable && text.len() > 0 ==> text[0] != '+' && text[0] != '-',
    ensures
        ({
            let rest = if is_foldable {
                seq![sign] + text
            } else {
                text
            };
            let line = ">"@ + gap + "[!"@ + kind + "]"@ + rest;
            &&& callout_of(line) is Some
            &&& callout_of(line)->0.kind == kind
            &&& callout_of(line)->0.is_foldable == is_foldable
            &&& trim(text).len() > 0 ==> callout_of(line)->0.title == Some(trim(text))
            &&& trim(text).len() == 0 ==> callout_of(line)->0.title is None
        }),
{
    reveal_strlit(">");
    reveal_strlit("[!");
    reveal_strlit("]");
    let rest = if is_foldable {
        seq![sign] + text
    } else {
        text
    };
    let line = ">"@ + gap + "[!"@ + kind + "]"@ + rest;
    let body = "[!"@ + kind + "]"@ + rest;
    assert(line[0] == '>');
    assert(trim_start(line) == line);
    assert(line.skip(1) =~= gap + body);
    assert(body[0] == '[');
    lemma_gap(gap, body);
    let close = 2int + kind.len();
    assert(body.subrange(0, 2) =~= "[!"@);
    assert(body.subrange(close, close + 1) =~= "]"@);
    assert forall|k: int| 2 <= k < close implies !occurs_at(body, "]"@, k) by {
        if occurs_at(body, "]"@, k) {
            assert(body.subrange(k, k + 1)[0] == body[k]);
            assert(body[k] == kind[k - 2]);
        }
    }
    lemma_first_place(body, "]"@, 2, close);
    assert(body.subrange(2, close) =~= kind);
    assert(body.skip(close + 1) =~= rest);
    if is_foldable {
        assert(rest[0] == sign);
        assert(rest.skip(1) =~= text);
    }
}

/// Every line that opens a callout is a quotation and holds `[!`, a kind that is not empty
/// and `]`.
pub proof fn lemma_callouts_stand_in_quotations(line: Seq<char>)
    requires
        line.len() > 0 ==> !is_white_space(line[0]),
        callout_of(line) is Some,
    ensures
        line[0] == '>',
        starts_with(trim_start(line.skip(1)), "[!"@ + callout_of(line)->0.kind + "]"@),
        callout_of(line)->0.kind.len() > 0,
        !callout_of(line)->0.kind.contains(']'),
{
    reveal_strlit("[!");
    reveal_strlit("]");
    assert(trim_start(line) == line);
    let body = trim_start(line.skip(1));
    lemma_position_of(body, "]"@, 2);
    let close = position_of(body, "]"@, 2)->0;
    let kind = body.subrange(2, close);
    let head = "[!"@ + kind + "]"@;
    assert(body.subrange(0, 2) == "[!"@);
    assert(body.subrange(close, close + 1) == "]"@);
    assert forall|k: int| 0 <= k < head.len() implies body[k] == #[trigger] head[k] by {
        if k < 2 {
            assert(body.subrange(0, 2)[k] == body[k]);
        } else if k == close {
            assert(body.subrange(close, close + 1)[0] == body[close]);
        }
    }
    assert(body.subrange(0, head.len() as int) =~= head);
    if kind.contains(']') {
        let k = choose|k: int| 0 <= k < kind.len() && kind[k] == ']';
        assert(body[k + 2] == ']');
        assert(body.subrange(k + 2, k + 3) =~= "]"@);
        assert(occurs_at(body, "]"@, k + 2));
    }
}

/// A quotation says what stands behind its sign, without the one space before it.
pub proof fn lemma_quotations_say_what_follows_their_sign(text: Seq<char>)
    ensures
        quoted_text(">"@ + text) == Some(text),
        without_space(" "@ + text) == text,
        text.len() > 0 && text[0] != ' ' ==> without_space(text) == text,
{
    reveal_strlit(">");
    reveal_strlit(" ");
    let line = ">"@ + text;
    assert(line[0] == '>');
    assert(trim_start(line) == line);
    assert(line.skip(1) =~= text);
    assert((" "@ + text).skip(1) =~= text);
}

/// Whether a line goes on with a callout: it has this number, is a quotation and opens
/// no callout itself.
pub open spec fn goes_on(line: Prose, number: int) -> bool {
    &&& line.number == number
    &&& callout_of(line.text) is None
    &&& quoted_text(line.text) is Some
}

/// The lines of a callout are those of the quotation that follow its first line without a
/// gap, up to one that opens another callout.
pub proof fn lemma_callouts_go_on_with_their_quotation(
    prose: Seq<Prose>,
    from: int,
    number: nat,
    k: int,
)
    requires
        0 <= from <= prose.len(),
    ensures
        ({
            let found = callout_lines(prose, from, number);
            let end = from + found.len();
            &&& end <= prose.len()
            &&& 0 <= k < found.len() ==> goes_on(prose[from + k], number + k) && found[k]
                == without_space(quoted_text(prose[from + k].text)->0)
            &&& end < prose.len() ==> !goes_on(prose[end], (number + found.len()) as int)
        }),
    decreases prose.len() - from,
{
    let found = callout_lines(prose, from, number);
    if from < prose.len() {
        let first = without_space(quoted_text(prose[from].text)->0);
        let rest = callout_lines(prose, from + 1, number + 1);
        lemma_callouts_go_on_with_their_quotation(prose, from + 1, number + 1, k - 1);
        assert((seq![first] + rest).len() == 1 + rest.len());
        if found.len() > 0 {
            assert(found =~= seq![first] + rest);
            if k > 0 && k < found.len() {
                assert(found[k] == rest[k - 1]);
            }
        }
    }
}

/// The callouts of a note are those of its lines, in order, each at the start of its line;
/// its content is the lines behind the first, where contents are asked for.
pub proof fn lemma_callouts_line_by_line(prose: Seq<Prose>, n: int, full: bool) -> (places: Seq<int>)
    requires
        0 <= n <= prose.len(),
    ensures
        ({
            let found = callouts_in(prose, n, full);
            &&& places.len() == found.len()
            &&& forall|k: int|
                0 <= k < n && callout_of(#[trigger] prose[k].text) is Some ==> places.contains(k)
            &&& forall|i: int, j: int| 0 <= i < j < places.len() ==> places[i] < places[j]
            &&& forall|i: int|
                0 <= i < places.len() ==> {
                    let line = prose[#[trigger] places[i]];
                    &&& 0 <= places[i] < n
                    &&& callout_of(line.text) is Some
                    &&& found[i].kind == callout_of(line.text)->0.kind
                    &&& found[i].title == callout_of(line.text)->0.title
                    &&& found[i].is_foldable == callout_of(line.text)->0.is_foldable
                    &&& found[i].position == (Place { line: line.number, column: 1 })
                    &&& full ==> found[i].content == join(
                        callout_lines(prose, places[i] + 1, line.number + 1),
                        "\n"@,
                    )
                    &&& !full ==> found[i].content.len() == 0
                }
        }),
    decreases n,
{
    if n == 0 {
        Seq::empty()
    } else {
        let before = lemma_callouts_line_by_line(prose, n - 1, full);
        let line = prose[n - 1];
        if callout_of(line.text) is Some {
            let places = before.push(n - 1);
            let found = callouts_in(prose, n, full);
            assert forall|k: int| 0 <= k < n && callout_of(#[trigger] prose[k].text) is Some implies
                places.contains(k) by {
                if k == n - 1 {
                    assert(places.last() == k);
                } else {
                    let i = choose|i: int| 0 <= i < before.len() && before[i] == k;
                    assert(places[i] == k);
                }
            }
            assert forall|i: int| 0 <= i < before.len() implies found[i] == callouts_in(
                prose,
                n - 1,
                full,
            )[i] && #[trigger] places[i] == before[i] by {}
            places
        } else {
            before
        }
    }
}

// ---------------------------------------------------------------------------
// Options
// ---------------------------------------------------------------------------

/// The elements of a note are those of its prose: links in double brackets, embeds and links
/// in single brackets each under their own name, and the front matter from its own lines.
pub proof fn lemma_elements_are_those_of_the_prose(content: Seq<char>, full: bool)
    ensures
        ({
            let all = lines(content);
            let prose = prose_of(all, all.len() as int);
            let found = everything(content, full);
            &&& found.wikilinks == links_in(prose, SpanKind::Wikilink)
            &&& found.embeds == links_in(prose, SpanKind::Embed)
            &&& found.markdown_links == links_in(prose, SpanKind::Link)
            &&& found.headings == headings_in(prose)
            &&& found.tasks == tasks_in(prose)
            &&& found.tags == tags_in(prose)
            &&& found.callouts == callouts_in(prose, prose.len() as int, full)
            &&& found.frontmatter == front_of(all)
        }),
{
}

/// Each option decides over its own elements and over no others: they are all found where
/// they are asked for, and none is where they are not.
pub proof fn lemma_options_decide_over_their_elements(content: Seq<char>, options: ParseOptions)
    ensures
        ({
            let found = parsed(content, options);
            let all = everything(content, options.full_callouts);
            &&& options.parse_frontmatter ==> found.frontmatter == all.frontmatter
            &&& !options.parse_frontmatter ==> found.frontmatter is None
            &&& options.parse_headings ==> found.headings == all.headings
            &&& !options.parse_headings ==> found.headings.len() == 0
            &&& options.parse_wikilinks ==> found.wikilinks == all.wikilinks && found.embeds
                == all.embeds
            &&& !options.parse_wikilinks ==> found.wikilinks.len() == 0 && found.embeds.len() == 0
            &&& options.parse_markdown_links ==> found.markdown_links == all.markdown_links
            &&& !options.parse_markdown_links ==> found.markdown_links.len() == 0
            &&& options.parse_tags ==> found.tags == all.tags
            &&& !options.parse_tags ==> found.tags.len() == 0
            &&& options.parse_tasks ==> found.tasks == all.tasks
            &&& !options.parse_tasks ==> found.tasks.len() == 0
            &&& options.parse_callouts ==> found.callouts == all.callouts
            &&& !options.parse_callouts ==> found.callouts.len() == 0
        }),
{
}

} // verus!
