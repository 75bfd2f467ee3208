//! Reading the elements of Obsidian-flavored Markdown without a vault around it.
use crate::headings::{heading_of, parse_heading};
use crate::inline::{
    lemma_part_moves_forward, lemma_parts_stand_apart, part_at, parts, parts_from, spans_of, Part,
    Span, SpanKind,
};
use crate::lines::{join, joined, lines, lines_of, trim, trim_start, trimmed, trimmed_start};
use crate::prose::{
    front_of, is_prose, lemma_prose_lines_are_prose, prose_models, prose_of, read_frontmatter,
    read_prose, Front, Frontmatter, Prose, ProseLine,
};
use crate::text::{
    chars_of, contains, find_from, has, lemma_position_of, opt_text, position_of, reads_at,
    slice_text, starts_with, texts,
};
use vstd::prelude::*;

verus! {

// ---------------------------------------------------------------------------
// Options
// ---------------------------------------------------------------------------

/// Which elements are read.
#[derive(Debug, Clone, Copy, PartialEq, Eq, Structural)]
pub struct ParseOptions {
    /// Front matter.
    pub parse_frontmatter: bool,
    /// Wikilinks and embeds.
    pub parse_wikilinks: bool,
    /// Links such as `[text](url)`.
    pub parse_markdown_links: bool,
    /// Headings of the levels 1 to 6.
    pub parse_headings: bool,
    /// Tasks (`- [ ]`, `- [x]`).
    pub parse_tasks: bool,
    /// Callouts (`> [!NOTE]`).
    pub parse_callouts: bool,
    /// Tags (`#tag`).
    pub parse_tags: bool,
    /// The content of callouts too, not only their first lines.
    pub full_callouts: bool,
}

impl Default for ParseOptions {
    fn default() -> (r: Self)
        ensures
            r == all_elements(),
    {
        ParseOptions::all()
    }
}

/// Every element, callouts without their content.
pub open spec fn all_elements() -> ParseOptions {
    ParseOptions {
        parse_frontmatter: true,
        parse_wikilinks: true,
        parse_markdown_links: true,
        parse_headings: true,
        parse_tasks: true,
        parse_callouts: true,
        parse_tags: true,
        full_callouts: false,
    }
}

/// No element.
pub open spec fn no_elements() -> ParseOptions {
    ParseOptions {
        parse_frontmatter: false,
        parse_wikilinks: false,
        parse_markdown_links: false,
        parse_headings: false,
        parse_tasks: false,
        parse_callouts: false,
        parse_tags: false,
        full_callouts: false,
    }
}

impl ParseOptions {
    /// Every element, callouts without their content.
    pub fn all() -> (r: Self)
        ensures
            r == all_elements(),
    {
        ParseOptions {
            parse_frontmatter: true,
            parse_wikilinks: true,
            parse_markdown_links: true,
            parse_headings: true,
            parse_tasks: true,
            parse_callouts: true,
            parse_tags: true,
            full_callouts: false,
        }
    }

    /// No element, as a point to start from.
    pub fn none() -> (r: Self)
        ensures
            r == no_elements(),
    {
        ParseOptions {
            parse_frontmatter: false,
            parse_wikilinks: false,
            parse_markdown_links: false,
            parse_headings: false,
            parse_tasks: false,
            parse_callouts: false,
            parse_tags: false,
            full_callouts: false,
        }
    }

    /// Links, headings and whole callouts, for a viewer of document trees.
    pub fn treemd() -> (r: Self)
        ensures
            r == (ParseOptions {
                parse_wikilinks: true,
                parse_markdown_links: true,
                parse_headings: true,
                parse_callouts: true,
                full_callouts: true,
                ..no_elements()
            }),
    {
        ParseOptions {
            parse_frontmatter: false,
            parse_wikilinks: true,
            parse_markdown_links: true,
            parse_headings: true,
            parse_tasks: false,
            parse_callouts: true,
            parse_tags: false,
            full_callouts: true,
        }
    }

    /// Wikilinks, embeds and Markdown links.
    pub fn links_only() -> (r: Self)
        ensures
            r == (ParseOptions {
                parse_wikilinks: true,
                parse_markdown_links: true,
                ..no_elements()
            }),
    {
        ParseOptions {
            parse_frontmatter: false,
            parse_wikilinks: true,
            parse_markdown_links: true,
            parse_headings: false,
            parse_tasks: false,
            parse_callouts: false,
            parse_tags: false,
            full_callouts: false,
        }
    }

    /// Front matter too.
    pub fn with_frontmatter(self) -> (r: Self)
        ensures
            r == (ParseOptions { parse_frontmatter: true, ..self }),
    {
        let mut r = self;
        r.parse_frontmatter = true;
        r
    }

    /// The content of callouts too.
    pub fn with_full_callouts(self) -> (r: Self)
        ensures
            r == (ParseOptions { full_callouts: true, ..self }),
    {
        let mut r = self;
        r.full_callouts = true;
        r
    }
}

// ---------------------------------------------------------------------------
// Elements
// ---------------------------------------------------------------------------

/// A place in a note: a line and a column, both counted from one, the column in
/// characters.
#[derive(Debug, Clone, Copy, PartialEq, Eq, Structural)]
pub struct Position {
    pub line: usize,
    pub column: usize,
}

/// A place in a note, as numbers.
pub struct Place {
    pub line: nat,
    pub column: nat,
}

impl View for Position {
    type V = Place;

    open spec fn view(&self) -> Place {
        Place { line: self.line as nat, column: self.column as nat }
    }
}

/// What a link is.
#[derive(Debug, Clone, Copy, PartialEq, Eq, Structural)]
pub enum LinkKind {
    /// `[[note]]`
    Wikilink,
    /// `[[note#section]]`
    HeadingRef,
    /// `[[note#^block]]`
    BlockRef,
    /// `![[note]]`
    Embed,
    /// `[text](url)`
    Markdown,
}

/// A link.
pub struct Link {
    pub kind: LinkKind,
    pub target: String,
    /// The text that is shown instead of the target.
    pub display: Option<String>,
    pub position: Position,
}

/// A link, as texts.
#[verifier::ext_equal]
pub struct LinkModel {
    pub kind: LinkKind,
    pub target: Seq<char>,
    pub display: Option<Seq<char>>,
    pub position: Place,
}

impl View for Link {
    type V = LinkModel;

    open spec fn view(&self) -> LinkModel {
        LinkModel {
            kind: self.kind,
            target: self.target@,
            display: opt_text(self.display),
            position: self.position@,
        }
    }
}

/// Links as models.
pub open spec fn link_models(v: Seq<Link>) -> Seq<LinkModel> {
    v.map_values(|l: Link| l@)
}

/// A tag, without its hash sign.
pub struct Tag {
    pub name: String,
    pub position: Position,
}

/// A tag, as a text.
pub struct TagModel {
    pub name: Seq<char>,
    pub position: Place,
}

impl View for Tag {
    type V = TagModel;

    open spec fn view(&self) -> TagModel {
        TagModel { name: self.name@, position: self.position@ }
    }
}

/// Tags as models.
pub open spec fn tag_models(v: Seq<Tag>) -> Seq<TagModel> {
    v.map_values(|t: Tag| t@)
}

/// A heading of a note.
pub struct NoteHeading {
    pub level: usize,
    pub text: String,
    pub position: Position,
}

/// A heading of a note, as a text.
pub struct HeadingModel {
    pub level: nat,
    pub text: Seq<char>,
    pub position: Place,
}

impl View for NoteHeading {
    type V = HeadingModel;

    open spec fn view(&self) -> HeadingModel {
        HeadingModel { level: self.level as nat, text: self.text@, position: self.position@ }
    }
}

/// Headings as models.
pub open spec fn heading_models(v: Seq<NoteHeading>) -> Seq<HeadingModel> {
    v.map_values(|h: NoteHeading| h@)
}

/// A task.
pub struct TaskItem {
    pub content: String,
    pub is_completed: bool,
    pub position: Position,
}

/// A task, as a text.
pub struct TaskModel {
    pub content: Seq<char>,
    pub is_completed: bool,
    pub position: Place,
}

impl View for TaskItem {
    type V = TaskModel;

    open spec fn view(&self) -> TaskModel {
        TaskModel {
            content: self.content@,
            is_completed: self.is_completed,
            position: self.position@,
        }
    }
}

/// Tasks as models.
pub open spec fn task_models(v: Seq<TaskItem>) -> Seq<TaskModel> {
    v.map_values(|t: TaskItem| t@)
}

/// A callout. Its content is empty where only first lines are read.
pub struct Callout {
    pub kind: String,
    pub title: Option<String>,
    pub content: String,
    pub is_foldable: bool,
    pub position: Position,
}

/// A callout, as texts.
#[verifier::ext_equal]
pub struct CalloutModel {
    pub kind: Seq<char>,
    pub title: Option<Seq<char>>,
    pub content: Seq<char>,
    pub is_foldable: bool,
    pub position: Place,
}

impl View for Callout {
    type V = CalloutModel;

    open spec fn view(&self) -> CalloutModel {
        CalloutModel {
            kind: self.kind@,
            title: opt_text(self.title),
            content: self.content@,
            is_foldable: self.is_foldable,
            position: self.position@,
        }
    }
}

/// Callouts as models.
pub open spec fn callout_models(v: Seq<Callout>) -> Seq<CalloutModel> {
    v.map_values(|c: Callout| c@)
}

// ---------------------------------------------------------------------------
// Headings and tasks
// ---------------------------------------------------------------------------

/// The start of a line.
pub open spec fn line_start(line: nat) -> Place {
    Place { line, column: 1 }
}

/// The headings among lines of prose.
pub open spec fn headings_in(prose: Seq<Prose>) -> Seq<HeadingModel>
    decreases prose.len(),
{
    if prose.len() == 0 {
        Seq::empty()
    } else {
        match heading_of(prose.last().text) {
            Some(h) => headings_in(prose.drop_last()).push(
                HeadingModel {
                    level: h.level,
                    text: h.text,
                    position: line_start(prose.last().number),
                },
            ),
            None => headings_in(prose.drop_last()),
        }
    }
}

fn read_headings(prose: &Vec<ProseLine>) -> (out: Vec<NoteHeading>)
    ensures
        heading_models(out@) == headings_in(prose_models(prose@)),
{
    let ghost all = prose_models(prose@);
    let mut out: Vec<NoteHeading> = Vec::new();
    let mut i: usize = 0;
    while i < prose.len()
        invariant
            i <= prose.len(),
            all == prose_models(prose@),
            heading_models(out@) == headings_in(all.take(i as int)),
        decreases prose.len() - i,
    {
        assert(all.take(i + 1).drop_last() =~= all.take(i as int));
        assert(all.take(i + 1).last() == prose@[i as int]@);
        if let Some(frame) = parse_heading(prose[i].text.as_str()) {
            let ghost before = heading_models(out@);
            let heading = NoteHeading {
                level: frame.level,
                text: frame.text,
                position: Position { line: prose[i].number, column: 1 },
            };
            out.push(heading);
            assert(heading_models(out@) =~= before.push(heading@));
        }
        i = i + 1;
    }
    assert(all.take(i as int) =~= all);
    out
}

/// Whether a task is completed, and what it says: a bullet, a box that is empty or crossed,
/// and the text behind it.
pub open spec fn task_of(line: Seq<char>) -> Option<(bool, Seq<char>)> {
    let body = trim_start(line);
    if body.len() >= 5 && (body[0] == '-' || body[0] == '*' || body[0] == '+') && body[1] == ' '
        && body[2] == '[' && (body[3] == ' ' || body[3] == 'x' || body[3] == 'X') && body[4] == ']'
        && (body.len() == 5 || body[5] == ' ') {
        Some((body[3] != ' ', trim(body.skip(5))))
    } else {
        None
    }
}

/// The tasks among lines of prose.
pub open spec fn tasks_in(prose: Seq<Prose>) -> Seq<TaskModel>
    decreases prose.len(),
{
    if prose.len() == 0 {
        Seq::empty()
    } else {
        match task_of(prose.last().text) {
            Some(task) => tasks_in(prose.drop_last()).push(
                TaskModel {
                    content: task.1,
                    is_completed: task.0,
                    position: line_start(prose.last().number),
                },
            ),
            None => tasks_in(prose.drop_last()),
        }
    }
}

fn parse_task(line: &str) -> (r: Option<(bool, String)>)
    ensures
        match r {
            Some(task) => task_of(line@) == Some((task.0, task.1@)),
            None => task_of(line@) is None,
        },
{
    let body = chars_of(trimmed_start(line).as_str());
    if body.len() >= 5 && (body[0] == '-' || body[0] == '*' || body[0] == '+') && body[1] == ' '
        && body[2] == '[' && (body[3] == ' ' || body[3] == 'x' || body[3] == 'X') && body[4] == ']'
        && (body.len() == 5 || body[5] == ' ') {
        let rest = slice_text(&body, 5, body.len());
        assert(rest@ =~= body@.skip(5));
        Some((body[3] != ' ', trimmed(rest.as_str())))
    } else {
        None
    }
}

fn read_tasks(prose: &Vec<ProseLine>) -> (out: Vec<TaskItem>)
    ensures
        task_models(out@) == tasks_in(prose_models(prose@)),
{
    let ghost all = prose_models(prose@);
    let mut out: Vec<TaskItem> = Vec::new();
    let mut i: usize = 0;
    while i < prose.len()
        invariant
            i <= prose.len(),
            all == prose_models(prose@),
            task_models(out@) == tasks_in(all.take(i as int)),
        decreases prose.len() - i,
    {
        assert(all.take(i + 1).drop_last() =~= all.take(i as int));
        assert(all.take(i + 1).last() == prose@[i as int]@);
        if let Some((is_completed, content)) = parse_task(prose[i].text.as_str()) {
            let ghost before = task_models(out@);
            let task = TaskItem {
                content,
                is_completed,
                position: Position { line: prose[i].number, column: 1 },
            };
            out.push(task);
            assert(task_models(out@) =~= before.push(task@));
        }
        i = i + 1;
    }
    assert(all.take(i as int) =~= all);
    out
}

// ---------------------------------------------------------------------------
// Callouts
// ---------------------------------------------------------------------------

/// The first line of a callout: its kind, its title if it has one, and whether it can be
/// folded.
pub struct CalloutHead {
    pub kind: Seq<char>,
    pub title: Option<Seq<char>>,
    pub is_foldable: bool,
}

/// What stands in a line of a quotation behind its sign.
pub open spec fn quoted_text(line: Seq<char>) -> Option<Seq<char>> {
    let body = trim_start(line);
    if body.len() > 0 && body[0] == '>' {
        Some(body.skip(1))
    } else {
        None
    }
}

/// The text without the one space that it begins with.
pub open spec fn without_space(text: Seq<char>) -> Seq<char> {
    if text.len() > 0 && text[0] == ' ' {
        text.skip(1)
    } else {
        text
    }
}

/// What follows the kind of a callout: a sign that makes it foldable, and a title.
pub open spec fn callout_head(kind: Seq<char>, rest: Seq<char>) -> CalloutHead {
    let is_foldable = rest.len() > 0 && (rest[0] == '+' || rest[0] == '-');
    let title = trim(
        if is_foldable {
            rest.skip(1)
        } else {
            rest
        },
    );
    CalloutHead {
        kind,
        title: if title.len() > 0 {
            Some(title)
        } else {
            None
        },
        is_foldable,
    }
}

/// The callout that a line opens: `> [!kind]` and what follows it.
pub open spec fn callout_of(line: Seq<char>) -> Option<CalloutHead> {
    match quoted_text(line) {
        Some(text) => {
            let body = trim_start(text);
            match position_of(body, "]"@, 2) {
                Some(close) => if starts_with(body, "[!"@) && close > 2 {
                    Some(callout_head(body.subrange(2, close), body.skip(close + 1)))
                } else {
                    None
                },
                None => None,
            }
        },
        None => None,
    }
}

/// The lines of a callout behind its first one: the quotation goes on line by line, and
/// none of them opens another callout.
pub open spec fn callout_lines(prose: Seq<Prose>, from: int, number: nat) -> Seq<Seq<char>>
    decreases prose.len() - from,
{
    if 0 <= from < prose.len() && prose[from].number == number && quoted_text(
        prose[from].text,
    ) is Some && callout_of(prose[from].text) is None {
        seq![without_space(quoted_text(prose[from].text)->0)] + callout_lines(
            prose,
            from + 1,
            number + 1,
        )
    } else {
        Seq::empty()
    }
}

/// The callouts that the first lines of prose open.
pub open spec fn callouts_in(prose: Seq<Prose>, n: int, full: bool) -> Seq<CalloutModel>
    decreases n,
{
    if n <= 0 {
        Seq::empty()
    } else {
        match callout_of(prose[n - 1].text) {
            Some(head) => callouts_in(prose, n - 1, full).push(
                CalloutModel {
                    kind: head.kind,
                    title: head.title,
                    content: if full {
                        join(callout_lines(prose, n, prose[n - 1].number + 1), "\n"@)
                    } else {
                        Seq::empty()
                    },
                    is_foldable: head.is_foldable,
                    position: line_start(prose[n - 1].number),
                },
            ),
            None => callouts_in(prose, n - 1, full),
        }
    }
}

fn read_quote(line: &str) -> (r: Option<String>)
    ensures
        opt_text(r) == quoted_text(line@),
{
    let body = chars_of(trimmed_start(line).as_str());
    if body.len() > 0 && body[0] == '>' {
        let rest = slice_text(&body, 1, body.len());
        assert(rest@ =~= body@.skip(1));
        Some(rest)
    } else {
        None
    }
}

fn drop_space(text: String) -> (out: String)
    ensures
        out@ == without_space(text@),
{
    let chars = chars_of(text.as_str());
    if chars.len() > 0 && chars[0] == ' ' {
        let rest = slice_text(&chars, 1, chars.len());
        assert(rest@ =~= text@.skip(1));
        rest
    } else {
        text
    }
}

/// The first line of a callout: kind, title and whether it can be folded.
fn parse_callout(line: &str) -> (r: Option<(String, Option<String>, bool)>)
    ensures
        match r {
            Some(head) => callout_of(line@) == Some(
                CalloutHead { kind: head.0@, title: opt_text(head.1), is_foldable: head.2 },
            ),
            None => callout_of(line@) is None,
        },
{
    let text = match read_quote(line) {
        Some(text) => text,
        None => {
            return None;
        },
    };
    proof {
        reveal_strlit("]");
        reveal_strlit("[!");
    }
    let body = chars_of(trimmed_start(text.as_str()).as_str());
    let close: usize = match find_from(&body, &chars_of("]"), 2) {
        Some(close) => close,
        None => {
            return None;
        },
    };
    if !reads_at(&body, &chars_of("[!"), 0) || close == 2 {
        return None;
    }
    let kind = slice_text(&body, 2, close);
    let is_foldable = close + 1 < body.len() && (body[close + 1] == '+' || body[close + 1] == '-');
    let ghost rest = body@.skip(close + 1);
    let from: usize = if is_foldable {
        close + 2
    } else {
        close + 1
    };
    let tail = slice_text(&body, from, body.len());
    assert(is_foldable ==> rest.skip(1) =~= tail@);
    assert(!is_foldable ==> rest =~= tail@);
    let title = trimmed(tail.as_str());
    if title.as_str().is_empty() {
        Some((kind, None, is_foldable))
    } else {
        Some((kind, Some(title), is_foldable))
    }
}

fn read_callout_lines(prose: &Vec<ProseLine>, from: usize) -> (out: Vec<String>)
    requires
        0 < from <= prose.len(),
    ensures
        texts(out@) == callout_lines(
            prose_models(prose@),
            from as int,
            prose@[from - 1]@.number + 1,
        ),
{
    let ghost all = prose_models(prose@);
    let mut out: Vec<String> = Vec::new();
    let mut i: usize = from;
    let mut last: usize = prose[from - 1].number;
    let ghost whole = callout_lines(all, from as int, (last + 1) as nat);
    assert(texts(out@) + whole =~= whole);
    while i < prose.len()
        invariant
            0 < from <= i <= prose.len(),
            all == prose_models(prose@),
            whole == callout_lines(all, from as int, (prose@[from - 1]@.number + 1) as nat),
            texts(out@) + callout_lines(all, i as int, (last + 1) as nat) == whole,
        decreases prose.len() - i,
    {
        let line = prose[i].text.as_str();
        assert(all[i as int] == prose@[i as int]@);
        let stop = prose[i].number == 0 || prose[i].number - 1 != last || parse_callout(
            line,
        ).is_some();
        let text = match read_quote(line) {
            Some(text) if !stop => text,
            _ => {
                assert(texts(out@) + Seq::<Seq<char>>::empty() =~= texts(out@));
                return out;
            },
        };
        let ghost before = texts(out@);
        let kept = drop_space(text);
        out.push(kept);
        assert(texts(out@) =~= before.push(kept@));
        last = prose[i].number;
        i = i + 1;
        assert(before + (seq![kept@] + callout_lines(all, i as int, (last + 1) as nat)) =~= texts(
            out@,
        ) + callout_lines(all, i as int, (last + 1) as nat));
    }
    assert(texts(out@) + Seq::<Seq<char>>::empty() =~= texts(out@));
    out
}

fn read_callouts(prose: &Vec<ProseLine>, full: bool) -> (out: Vec<Callout>)
    ensures
        callout_models(out@) == callouts_in(prose_models(prose@), prose.len() as int, full),
{
    let ghost all = prose_models(prose@);
    let mut out: Vec<Callout> = Vec::new();
    let mut i: usize = 0;
    while i < prose.len()
        invariant
            i <= prose.len(),
            all == prose_models(prose@),
            callout_models(out@) == callouts_in(all, i as int, full),
        decreases prose.len() - i,
    {
        assert(all[i as int] == prose@[i as int]@);
        if let Some((kind, title, is_foldable)) = parse_callout(prose[i].text.as_str()) {
            let ghost before = callout_models(out@);
            let content = if full {
                joined(&read_callout_lines(prose, i + 1), "\n")
            } else {
                String::new()
            };
            let callout = Callout {
                kind,
                title,
                content,
                is_foldable,
                position: Position { line: prose[i].number, column: 1 },
            };
            out.push(callout);
            assert(callout_models(out@) =~= before.push(callout@));
            assert(callout@ =~= callouts_in(all, i + 1, full).last());
        }
        i = i + 1;
    }
    out
}

// ---------------------------------------------------------------------------
// Links and tags
// ---------------------------------------------------------------------------

/// The kind of a link between double brackets, by its target.
pub open spec fn wiki_kind(target: Seq<char>) -> LinkKind {
    if contains(target, "#^"@) {
        LinkKind::BlockRef
    } else if contains(target, "#"@) {
        LinkKind::HeadingRef
    } else {
        LinkKind::Wikilink
    }
}

/// A link between double brackets: what stands before the first bar is the target, what
/// stands behind it is shown.
pub open spec fn wiki_link(inner: Seq<char>, is_embed: bool, position: Place) -> LinkModel {
    let (target, display) = match position_of(inner, "|"@, 0) {
        Some(at) => (trim(inner.take(at)), Some(trim(inner.skip(at + 1)))),
        None => (trim(inner), None),
    };
    LinkModel {
        kind: if is_embed {
            LinkKind::Embed
        } else {
            wiki_kind(target)
        },
        target,
        display,
        position,
    }
}

/// The link that a part of a line is.
pub open spec fn link_of(line: Seq<char>, part: Part, number: nat) -> LinkModel {
    let position = Place { line: number, column: (part.start + 1) as nat };
    match part.kind {
        SpanKind::Wikilink => wiki_link(
            line.subrange(part.start + 2, part.end - 2),
            false,
            position,
        ),
        SpanKind::Embed => wiki_link(line.subrange(part.start + 3, part.end - 2), true, position),
        _ => LinkModel {
            kind: LinkKind::Markdown,
            target: trim(line.subrange(part.middle + 2, part.end - 1)),
            display: Some(line.subrange(part.start + 1, part.middle)),
            position,
        },
    }
}

/// The links of one kind among the parts of a line.
pub open spec fn links_among(
    found: Seq<Part>,
    line: Seq<char>,
    number: nat,
    kind: SpanKind,
) -> Seq<LinkModel>
    decreases found.len(),
{
    if found.len() == 0 {
        Seq::empty()
    } else if found.last().kind == kind {
        links_among(found.drop_last(), line, number, kind).push(
            link_of(line, found.last(), number),
        )
    } else {
        links_among(found.drop_last(), line, number, kind)
    }
}

/// The links of one kind in lines of prose.
pub open spec fn links_in(prose: Seq<Prose>, kind: SpanKind) -> Seq<LinkModel>
    decreases prose.len(),
{
    if prose.len() == 0 {
        Seq::empty()
    } else {
        let line = prose.last();
        links_in(prose.drop_last(), kind) + links_among(
            parts_from(line.text, 0),
            line.text,
            line.number,
            kind,
        )
    }
}

/// The tags among the parts of a line.
pub open spec fn tags_among(found: Seq<Part>, line: Seq<char>, number: nat) -> Seq<TagModel>
    decreases found.len(),
{
    if found.len() == 0 {
        Seq::empty()
    } else if found.last().kind == SpanKind::Tag {
        let part = found.last();
        tags_among(found.drop_last(), line, number).push(
            TagModel {
                name: line.subrange(part.start + 1, part.end),
                position: Place { line: number, column: (part.start + 1) as nat },
            },
        )
    } else {
        tags_among(found.drop_last(), line, number)
    }
}

/// The tags in lines of prose.
pub open spec fn tags_in(prose: Seq<Prose>) -> Seq<TagModel>
    decreases prose.len(),
{
    if prose.len() == 0 {
        Seq::empty()
    } else {
        let line = prose.last();
        tags_in(prose.drop_last()) + tags_among(
            parts_from(line.text, 0),
            line.text,
            line.number,
        )
    }
}

/// Where the pieces of a link stand inside it.
proof fn lemma_link_shape(line: Seq<char>, at: int)
    requires
        0 <= at < line.len(),
        part_at(line, at) is Some,
    ensures
        ({
            let part = part_at(line, at)->0;
            &&& part.kind == SpanKind::Wikilink ==> at + 4 <= part.end <= line.len()
            &&& part.kind == SpanKind::Embed ==> at + 5 <= part.end <= line.len()
            &&& part.kind == SpanKind::Link ==> at + 1 <= part.middle && part.middle + 3 <= part.end
                <= line.len()
            &&& part.start == at
        }),
{
    reveal_strlit("]]");
    reveal_strlit("]");
    reveal_strlit("](");
    reveal_strlit(")");
    lemma_part_moves_forward(line, at);
    let c = line[at];
    if c == '!' {
        lemma_position_of(line, "]]"@, at + 3);
    } else if c == '[' {
        lemma_position_of(line, "]]"@, at + 2);
        lemma_position_of(line, "]"@, at + 1);
        if position_of(line, "]"@, at + 1) is Some {
            lemma_position_of(line, ")"@, position_of(line, "]"@, at + 1)->0 + 2);
        }
    }
}

fn read_wiki_link(inner: &str, is_embed: bool, position: Position) -> (r: Link)
    ensures
        r@ == wiki_link(inner@, is_embed, position@),
{
    proof {
        reveal_strlit("|");
    }
    let chars = chars_of(inner);
    let (target, display) = match find_from(&chars, &chars_of("|"), 0) {
        Some(at) => {
            let before = slice_text(&chars, 0, at);
            let after = slice_text(&chars, at + 1, chars.len());
            assert(before@ =~= inner@.take(at as int));
            assert(after@ =~= inner@.skip(at + 1));
            (trimmed(before.as_str()), Some(trimmed(after.as_str())))
        },
        None => (trimmed(inner), None),
    };
    let kind = if is_embed {
        LinkKind::Embed
    } else if has(target.as_str(), "#^") {
        LinkKind::BlockRef
    } else if has(target.as_str(), "#") {
        LinkKind::HeadingRef
    } else {
        LinkKind::Wikilink
    };
    Link { kind, target, display, position }
}

/// The link that a part of a line is.
fn read_link(line: &Vec<char>, span: &Span, number: usize) -> (r: Link)
    requires
        span.start < line.len(),
        part_at(line@, span.start as int) == Some(span@),
        span.kind == SpanKind::Wikilink || span.kind == SpanKind::Embed || span.kind
            == SpanKind::Link,
    ensures
        r@ == link_of(line@, span@, number as nat),
{
    proof {
        lemma_link_shape(line@, span.start as int);
    }
    let position = Position { line: number, column: span.start + 1 };
    match span.kind {
        SpanKind::Wikilink => {
            let inner = slice_text(line, span.start + 2, span.end - 2);
            read_wiki_link(inner.as_str(), false, position)
        },
        SpanKind::Embed => {
            let inner = slice_text(line, span.start + 3, span.end - 2);
            read_wiki_link(inner.as_str(), true, position)
        },
        _ => {
            let target = slice_text(line, span.middle + 2, span.end - 1);
            let text = slice_text(line, span.start + 1, span.middle);
            Link {
                kind: LinkKind::Markdown,
                target: trimmed(target.as_str()),
                display: Some(text),
                position,
            }
        },
    }
}

/// Adds the links of one kind that stand in a line.
fn add_links(out: &mut Vec<Link>, line: &Vec<char>, number: usize, kind: SpanKind)
    requires
        kind == SpanKind::Wikilink || kind == SpanKind::Embed || kind == SpanKind::Link,
    ensures
        link_models(final(out)@) == link_models(old(out)@) + links_among(
            parts_from(line@, 0),
            line@,
            number as nat,
            kind,
        ),
{
    let found = spans_of(line);
    let ghost all = parts(found@);
    let ghost before = link_models(out@);
    let mut i: usize = 0;
    proof {
        lemma_parts_stand_apart(line@, 0);
    }
    assert(before + links_among(all.take(0), line@, number as nat, kind) =~= before);
    while i < found.len()
        invariant
            i <= found.len(),
            all == parts(found@),
            all == parts_from(line@, 0),
            kind == SpanKind::Wikilink || kind == SpanKind::Embed || kind == SpanKind::Link,
            forall|k: int|
                0 <= k < all.len() ==> 0 <= (#[trigger] all[k]).start < all[k].end <= line.len()
                    && part_at(line@, all[k].start) == Some(all[k]),
            link_models(out@) == before + links_among(
                all.take(i as int),
                line@,
                number as nat,
                kind,
            ),
        decreases found.len() - i,
    {
        assert(all.take(i + 1).drop_last() =~= all.take(i as int));
        assert(all[i as int] == found@[i as int]@);
        assert(all.take(i + 1).last() == found@[i as int]@);
        if found[i].kind == kind {
            let ghost held = link_models(out@);
            let link = read_link(line, &found[i], number);
            out.push(link);
            assert(link_models(out@) =~= held.push(link@));
            assert(held.push(link@) =~= before + links_among(
                all.take(i + 1),
                line@,
                number as nat,
                kind,
            ));
        }
        i = i + 1;
    }
    assert(all.take(i as int) =~= all);
}

/// The links of one kind in lines of prose.
fn read_links(prose: &Vec<ProseLine>, kind: SpanKind) -> (out: Vec<Link>)
    requires
        kind == SpanKind::Wikilink || kind == SpanKind::Embed || kind == SpanKind::Link,
    ensures
        link_models(out@) == links_in(prose_models(prose@), kind),
{
    let ghost all = prose_models(prose@);
    let mut out: Vec<Link> = Vec::new();
    let mut i: usize = 0;
    while i < prose.len()
        invariant
            i <= prose.len(),
            all == prose_models(prose@),
            kind == SpanKind::Wikilink || kind == SpanKind::Embed || kind == SpanKind::Link,
            link_models(out@) == links_in(all.take(i as int), kind),
        decreases prose.len() - i,
    {
        assert(all.take(i + 1).drop_last() =~= all.take(i as int));
        assert(all.take(i + 1).last() == prose@[i as int]@);
        let line = chars_of(prose[i].text.as_str());
        add_links(&mut out, &line, prose[i].number, kind);
        i = i + 1;
    }
    assert(all.take(i as int) =~= all);
    out
}

/// Adds the tags that stand in a line.
fn add_tags(out: &mut Vec<Tag>, line: &Vec<char>, number: usize)
    ensures
        tag_models(final(out)@) == tag_models(old(out)@) + tags_among(
            parts_from(line@, 0),
            line@,
            number as nat,
        ),
{
    let found = spans_of(line);
    let ghost all = parts(found@);
    let ghost before = tag_models(out@);
    let mut i: usize = 0;
    proof {
        lemma_parts_stand_apart(line@, 0);
    }
    assert(before + tags_among(all.take(0), line@, number as nat) =~= before);
    while i < found.len()
        invariant
            i <= found.len(),
            all == parts(found@),
            forall|k: int|
                0 <= k < all.len() ==> 0 <= (#[trigger] all[k]).start < all[k].end <= line.len(),
            tag_models(out@) == before + tags_among(all.take(i as int), line@, number as nat),
        decreases found.len() - i,
    {
        assert(all.take(i + 1).drop_last() =~= all.take(i as int));
        assert(all[i as int] == found@[i as int]@);
        assert(all.take(i + 1).last() == found@[i as int]@);
        let span = found[i];
        if span.kind == SpanKind::Tag {
            let ghost held = tag_models(out@);
            let tag = Tag {
                name: slice_text(line, span.start + 1, span.end),
                position: Position { line: number, column: span.start + 1 },
            };
            out.push(tag);
            assert(tag_models(out@) =~= held.push(tag@));
            assert(held.push(tag@) =~= before + tags_among(
                all.take(i + 1),
                line@,
                number as nat,
            ));
        }
        i = i + 1;
    }
    assert(all.take(i as int) =~= all);
    assert(all =~= parts_from(line@, 0));
}

/// The tags in lines of prose.
fn read_tags(prose: &Vec<ProseLine>) -> (out: Vec<Tag>)
    ensures
        tag_models(out@) == tags_in(prose_models(prose@)),
{
    let ghost all = prose_models(prose@);
    let mut out: Vec<Tag> = Vec::new();
    let mut i: usize = 0;
    while i < prose.len()
        invariant
            i <= prose.len(),
            all == prose_models(prose@),
            tag_models(out@) == tags_in(all.take(i as int)),
        decreases prose.len() - i,
    {
        assert(all.take(i + 1).drop_last() =~= all.take(i as int));
        assert(all.take(i + 1).last() == prose@[i as int]@);
        let line = chars_of(prose[i].text.as_str());
        add_tags(&mut out, &line, prose[i].number);
        i = i + 1;
    }
    assert(all.take(i as int) =~= all);
    out
}

// ---------------------------------------------------------------------------
// Notes
// ---------------------------------------------------------------------------

/// What was read of a note.
pub struct ParsedContent {
    pub frontmatter: Option<Frontmatter>,
    pub headings: Vec<NoteHeading>,
    /// `[[Note]]`, `[[Note|alias]]`, `[[Note#heading]]`
    pub wikilinks: Vec<Link>,
    /// `![[image.png]]`, `![[Note]]`
    pub embeds: Vec<Link>,
    /// `[text](url)`
    pub markdown_links: Vec<Link>,
    /// `#tag`, `#nested/tag`
    pub tags: Vec<Tag>,
    /// `- [ ]`, `- [x]`
    pub tasks: Vec<TaskItem>,
    /// `> [!NOTE]`
    pub callouts: Vec<Callout>,
}

/// What was read of a note, as texts.
#[verifier::ext_equal]
pub struct Content {
    pub frontmatter: Option<Front>,
    pub headings: Seq<HeadingModel>,
    pub wikilinks: Seq<LinkModel>,
    pub embeds: Seq<LinkModel>,
    pub markdown_links: Seq<LinkModel>,
    pub tags: Seq<TagModel>,
    pub tasks: Seq<TaskModel>,
    pub callouts: Seq<CalloutModel>,
}

impl View for ParsedContent {
    type V = Content;

    open spec fn view(&self) -> Content {
        Content {
            frontmatter: match self.frontmatter {
                Some(front) => Some(front@),
                None => None,
            },
            headings: heading_models(self.headings@),
            wikilinks: link_models(self.wikilinks@),
            embeds: link_models(self.embeds@),
            markdown_links: link_models(self.markdown_links@),
            tags: tag_models(self.tags@),
            tasks: task_models(self.tasks@),
            callouts: callout_models(self.callouts@),
        }
    }
}

/// Nothing.
pub open spec fn no_content() -> Content {
    Content {
        frontmatter: None,
        headings: Seq::empty(),
        wikilinks: Seq::empty(),
        embeds: Seq::empty(),
        markdown_links: Seq::empty(),
        tags: Seq::empty(),
        tasks: Seq::empty(),
        callouts: Seq::empty(),
    }
}

/// All elements of a note, callouts with their content or without.
pub open spec fn everything(content: Seq<char>, full_callouts: bool) -> Content {
    let all = lines(content);
    let prose = prose_of(all, all.len() as int);
    Content {
        frontmatter: front_of(all),
        headings: headings_in(prose),
        wikilinks: links_in(prose, SpanKind::Wikilink),
        embeds: links_in(prose, SpanKind::Embed),
        markdown_links: links_in(prose, SpanKind::Link),
        tags: tags_in(prose),
        tasks: tasks_in(prose),
        callouts: callouts_in(prose, prose.len() as int, full_callouts),
    }
}

/// The sequence where it is asked for.
pub open spec fn only_if<T>(wanted: bool, v: Seq<T>) -> Seq<T> {
    if wanted {
        v
    } else {
        Seq::empty()
    }
}

/// The elements of a note that the options ask for.
pub open spec fn parsed(content: Seq<char>, options: ParseOptions) -> Content {
    let all = everything(content, options.full_callouts);
    Content {
        frontmatter: if options.parse_frontmatter {
            all.frontmatter
        } else {
            None
        },
        headings: only_if(options.parse_headings, all.headings),
        wikilinks: only_if(options.parse_wikilinks, all.wikilinks),
        embeds: only_if(options.parse_wikilinks, all.embeds),
        markdown_links: only_if(options.parse_markdown_links, all.markdown_links),
        tags: only_if(options.parse_tags, all.tags),
        tasks: only_if(options.parse_tasks, all.tasks),
        callouts: only_if(options.parse_callouts, all.callouts),
    }
}

impl Default for ParsedContent {
    fn default() -> (r: Self)
        ensures
            r@ == no_content(),
    {
        let r = ParsedContent {
            frontmatter: None,
            headings: Vec::new(),
            wikilinks: Vec::new(),
            embeds: Vec::new(),
            markdown_links: Vec::new(),
            tags: Vec::new(),
            tasks: Vec::new(),
            callouts: Vec::new(),
        };
        assert(r@ =~= no_content());
        r
    }
}

/// All links: wikilinks, then embeds, then Markdown links.
pub open spec fn links_of(content: Content) -> Seq<LinkModel> {
    content.wikilinks + content.embeds + content.markdown_links
}

/// Whether there is any link.
pub open spec fn has_link(content: Content) -> bool {
    content.wikilinks.len() > 0 || content.embeds.len() > 0 || content.markdown_links.len() > 0
}

/// How many links there are.
pub open spec fn count_of_links(content: Content) -> nat {
    content.wikilinks.len() + content.embeds.len() + content.markdown_links.len()
}

impl ParsedContent {
    /// Reads all elements of a note, callouts without their content.
    pub fn parse(content: &str) -> (r: Self)
        ensures
            r@ == parsed(content@, all_elements()),
    {
        ParsedContent::parse_with_options(content, ParseOptions::all())
    }

    /// Reads the elements of a note that the options ask for.
    pub fn parse_with_options(content: &str, opts: ParseOptions) -> (r: Self)
        ensures
            r@ == parsed(content@, opts),
    {
        let all = lines_of(content);
        assert(texts(all@).len() == all.len());
        let prose = read_prose(&all);
        assert(prose_models(prose@).len() == prose.len());
        let mut r = ParsedContent::default();
        if opts.parse_frontmatter {
            r.frontmatter = read_frontmatter(&all);
        }
        if opts.parse_headings {
            r.headings = read_headings(&prose);
        }
        if opts.parse_wikilinks {
            r.wikilinks = read_links(&prose, SpanKind::Wikilink);
            r.embeds = read_links(&prose, SpanKind::Embed);
        }
        if opts.parse_markdown_links {
            r.markdown_links = read_links(&prose, SpanKind::Link);
        }
        if opts.parse_tags {
            r.tags = read_tags(&prose);
        }
        if opts.parse_tasks {
            r.tasks = read_tasks(&prose);
        }
        if opts.parse_callouts {
            r.callouts = read_callouts(&prose, opts.full_callouts);
        }
        assert(r@ =~= parsed(content@, opts));
        r
    }

    /// All links: wikilinks, then embeds, then Markdown links.
    pub fn all_links(&self) -> (out: Vec<&Link>)
        ensures
            out@.map_values(|l: &Link| l@) == links_of(self@),
    {
        let mut out: Vec<&Link> = Vec::new();
        append_links(&mut out, &self.wikilinks);
        append_links(&mut out, &self.embeds);
        append_links(&mut out, &self.markdown_links);
        assert(out@.map_values(|l: &Link| l@) =~= links_of(self@));
        out
    }

    /// Whether there is any link.
    pub fn has_links(&self) -> (r: bool)
        ensures
            r == has_link(self@),
    {
        self.wikilinks.len() > 0 || self.embeds.len() > 0 || self.markdown_links.len() > 0
    }

    /// How many links there are.
    pub fn link_count(&self) -> (n: usize)
        requires
            count_of_links(self@) <= usize::MAX,
        ensures
            n == count_of_links(self@),
    {
        self.wikilinks.len() + self.embeds.len() + self.markdown_links.len()
    }

    /// Whether there is no element at all.
    pub fn is_empty(&self) -> (r: bool)
        ensures
            r == (self@ == no_content()),
    {
        let r = self.frontmatter.is_none() && self.headings.len() == 0 && self.wikilinks.len() == 0
            && self.embeds.len() == 0 && self.markdown_links.len() == 0 && self.tags.len() == 0
            && self.tasks.len() == 0 && self.callouts.len() == 0;
        assert(r ==> self@ =~= no_content());
        assert(self@ == no_content() ==> heading_models(self.headings@).len() == 0 && link_models(
            self.wikilinks@,
        ).len() == 0 && link_models(self.embeds@).len() == 0 && link_models(
            self.markdown_links@,
        ).len() == 0 && tag_models(self.tags@).len() == 0 && task_models(self.tasks@).len() == 0
            && callout_models(self.callouts@).len() == 0);
        r
    }
}

fn append_links<'a>(out: &mut Vec<&'a Link>, links: &'a Vec<Link>)
    ensures
        final(out)@.map_values(|l: &Link| l@) == old(out)@.map_values(|l: &Link| l@) + link_models(
            links@,
        ),
{
    let ghost before = out@;
    let mut i: usize = 0;
    while i < links.len()
        invariant
            i <= links.len(),
            out.len() == before.len() + i,
            forall|k: int| 0 <= k < before.len() ==> out@[k] == before[k],
            forall|k: int| 0 <= k < i ==> out@[before.len() + k] == links@[k],
        decreases links.len() - i,
    {
        out.push(&links[i]);
        i = i + 1;
    }
    assert(out@.map_values(|l: &Link| l@) =~= before.map_values(|l: &Link| l@) + link_models(
        links@,
    ));
}

// ---------------------------------------------------------------------------
// What reading a note promises
// ---------------------------------------------------------------------------

/// All links are the wikilinks, the embeds and the Markdown links, each as often as it was
/// read, and there are as many of them as are counted.
pub proof fn lemma_all_links_are_counted(content: Content)
    ensures
        links_of(content).to_multiset() == content.wikilinks.to_multiset().add(
            content.embeds.to_multiset(),
        ).add(content.markdown_links.to_multiset()),
        links_of(content).len() == count_of_links(content),
{
    vstd::seq_lib::lemma_multiset_commutative(content.wikilinks, content.embeds);
    vstd::seq_lib::lemma_multiset_commutative(
        content.wikilinks + content.embeds,
        content.markdown_links,
    );
}

/// There is a link where one is counted, and what has a link is not empty.
pub proof fn lemma_links_are_content(content: Content)
    ensures
        has_link(content) <==> count_of_links(content) > 0,
        has_link(content) ==> content != no_content(),
{
}

/// A link that is found stands in prose: never in front matter, and never in a fenced code
/// block. Its place is where its first character stands.
pub proof fn lemma_links_stand_in_prose(all: Seq<Seq<char>>, kind: SpanKind, i: int)
    requires
        0 <= i < links_in(prose_of(all, all.len() as int), kind).len(),
    ensures
        ({
            let link = links_in(prose_of(all, all.len() as int), kind)[i];
            let line = link.position.line - 1;
            &&& 0 <= line < all.len()
            &&& is_prose(all, line)
            &&& 1 <= link.position.column <= all[line].len()
            &&& part_at(all[line], link.position.column - 1) is Some
            &&& part_at(all[line], link.position.column - 1)->0.kind == kind
        }),
{
    let prose = prose_of(all, all.len() as int);
    assert forall|k: int| 0 <= k < prose.len() implies {
        let line = #[trigger] prose[k];
        &&& 1 <= line.number <= all.len()
        &&& line.text == all[line.number - 1]
        &&& is_prose(all, line.number - 1)
    } by {
        lemma_prose_lines_are_prose(all, all.len() as int, k);
    }
    lemma_links_have_lines(prose, kind, i);
}

/// A link comes from one of the lines, and from a part of it.
proof fn lemma_links_have_lines(prose: Seq<Prose>, kind: SpanKind, i: int)
    requires
        0 <= i < links_in(prose, kind).len(),
    ensures
        exists|k: int|
            0 <= k < prose.len() && is_link_of_line(
                #[trigger] prose[k],
                links_in(prose, kind)[i],
                kind,
            ),
    decreases prose.len(),
{
    let front = prose.drop_last();
    let line = prose.last();
    let before = links_in(front, kind);
    if i < before.len() {
        lemma_links_have_lines(front, kind, i);
        let k = choose|k: int|
            0 <= k < front.len() && is_link_of_line(#[trigger] front[k], before[i], kind);
        assert(prose[k] == front[k]);
    } else {
        let found = parts_from(line.text, 0);
        lemma_parts_stand_apart(line.text, 0);
        lemma_links_have_parts(found, line, kind, i - before.len());
        assert(prose[prose.len() - 1] == line);
    }
}

/// Whether a link is one of a line.
pub open spec fn is_link_of_line(line: Prose, link: LinkModel, kind: SpanKind) -> bool {
    let at = link.position.column - 1;
    &&& link.position.line == line.number
    &&& 0 <= at < line.text.len()
    &&& part_at(line.text, at) is Some
    &&& part_at(line.text, at)->0.kind == kind
    &&& link == link_of(line.text, part_at(line.text, at)->0, line.number)
}

proof fn lemma_links_have_parts(found: Seq<Part>, line: Prose, kind: SpanKind, i: int)
    requires
        forall|k: int|
            0 <= k < found.len() ==> 0 <= (#[trigger] found[k]).start < line.text.len() && part_at(
                line.text,
                found[k].start,
            ) == Some(found[k]),
        0 <= i < links_among(found, line.text, line.number, kind).len(),
    ensures
        is_link_of_line(line, links_among(found, line.text, line.number, kind)[i], kind),
    decreases found.len(),
{
    let front = found.drop_last();
    let before = links_among(front, line.text, line.number, kind);
    if i < before.len() {
        assert forall|k: int| 0 <= k < front.len() implies 0 <= (#[trigger] front[k]).start
            < line.text.len() && part_at(line.text, front[k].start) == Some(front[k]) by {
            assert(found[k] == front[k]);
        }
        lemma_links_have_parts(front, line, kind, i);
    } else {
        assert(found[found.len() - 1] == found.last());
    }
}

/// An element that is asked for is the same whatever else is asked for, and one that is not
/// asked for is left out.
pub proof fn lemma_options_select(content: Seq<char>, options: ParseOptions)
    ensures
        ({
            let all = everything(content, options.full_callouts);
            let some = parsed(content, options);
            &&& some.headings == all.headings || !options.parse_headings && some.headings.len() == 0
            &&& some.wikilinks == all.wikilinks || !options.parse_wikilinks && some.wikilinks.len()
                == 0
            &&& some.embeds == all.embeds || !options.parse_wikilinks && some.embeds.len() == 0
            &&& some.markdown_links == all.markdown_links || !options.parse_markdown_links
                && some.markdown_links.len() == 0
            &&& some.tags == all.tags || !options.parse_tags && some.tags.len() == 0
            &&& some.tasks == all.tasks || !options.parse_tasks && some.tasks.len() == 0
            &&& some.callouts == all.callouts || !options.parse_callouts && some.callouts.len() == 0
            &&& some.frontmatter == all.frontmatter || !options.parse_frontmatter
                && some.frontmatter is None
        }),
{
}

/// With no element asked for, nothing is found.
pub proof fn lemma_none_finds_nothing(content: Seq<char>)
    ensures
        parsed(content, no_elements()) == no_content(),
{
    assert(parsed(content, no_elements()) =~= no_content());
}

/// In an empty note, nothing is found.
pub proof fn lemma_empty_note_holds_nothing(options: ParseOptions)
    ensures
        parsed(Seq::empty(), options) == no_content(),
{
    let none = Seq::<char>::empty();
    assert(lines(none).len() == 0);
    let prose = prose_of(lines(none), 0);
    assert(prose.len() == 0);
    assert(parsed(none, options) =~= no_content());
}

/// Whole callouts differ from short ones in their content alone.
pub proof fn lemma_full_callouts_add_content(prose: Seq<Prose>, n: int, i: int)
    requires
        0 <= i < callouts_in(prose, n, true).len(),
    ensures
        callouts_in(prose, n, false).len() == callouts_in(prose, n, true).len(),
        callouts_in(prose, n, false)[i] == (CalloutModel {
            content: Seq::empty(),
            ..callouts_in(prose, n, true)[i]
        }),
    decreases n,
{
    let before = callouts_in(prose, n - 1, true);
    if i < before.len() {
        lemma_full_callouts_add_content(prose, n - 1, i);
    } else if before.len() > 0 {
        lemma_full_callouts_add_content(prose, n - 1, 0);
    } else {
        lemma_no_callouts(prose, n - 1);
    }
}

proof fn lemma_no_callouts(prose: Seq<Prose>, n: int)
    requires
        callouts_in(prose, n, true).len() == 0,
    ensures
        callouts_in(prose, n, false).len() == 0,
    decreases n,
{
    if n > 0 {
        lemma_no_callouts(prose, n - 1);
    }
}

} // verus!
