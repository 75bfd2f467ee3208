//! The lines of a note that are neither front matter nor code.
use crate::headings::{fence_after, next_fence_state, OpenFence};
use crate::lines::{trim_end, trimmed_end};
use crate::text::{copy, copy_opt, opt_text, same, texts};
use vstd::prelude::*;

verus! {

/// A line with its number, counted from one.
pub struct ProseLine {
    pub number: usize,
    pub text: String,
}

/// A line with its number, as a text.
pub struct Prose {
    pub number: nat,
    pub text: Seq<char>,
}

impl View for ProseLine {
    type V = Prose;

    open spec fn view(&self) -> Prose {
        Prose { number: self.number as nat, text: self.text@ }
    }
}

/// Numbered lines as models.
pub open spec fn prose_models(v: Seq<ProseLine>) -> Seq<Prose> {
    v.map_values(|p: ProseLine| p@)
}

// ---------------------------------------------------------------------------
// Front matter
// ---------------------------------------------------------------------------

/// Whether a line is a border of front matter.
pub open spec fn is_border(line: Seq<char>) -> bool {
    trim_end(line) == "---"@
}

/// The first border from a line on.
pub open spec fn border_from(all: Seq<Seq<char>>, from: int) -> Option<int>
    decreases all.len() - from,
{
    if from < 0 || from >= all.len() {
        None
    } else if is_border(all[from]) {
        Some(from)
    } else {
        border_from(all, from + 1)
    }
}

/// The line that closes the front matter: a note has front matter where its first line is
/// a border and another border follows.
pub open spec fn front_end(all: Seq<Seq<char>>) -> Option<int> {
    if all.len() > 0 && is_border(all[0]) {
        border_from(all, 1)
    } else {
        None
    }
}

/// How many lines the front matter takes, its borders counted.
pub open spec fn front_lines(all: Seq<Seq<char>>) -> int {
    match front_end(all) {
        Some(close) => close + 1,
        None => 0,
    }
}

fn is_border_line(line: &str) -> (r: bool)
    ensures
        r == is_border(line@),
{
    same(trimmed_end(line).as_str(), "---")
}

/// The line that closes the front matter, if there is any: the text of the note begins
/// behind it.
pub fn end_of_front(all: &Vec<String>) -> (r: Option<usize>)
    ensures
        match r {
            Some(close) => front_end(texts(all@)) == Some(close as int) && 0 < close < all.len(),
            None => front_end(texts(all@)) is None,
        },
{
    let ghost model = texts(all@);
    if all.len() == 0 {
        return None;
    }
    assert(model[0] == all@[0]@);
    if !is_border_line(all[0].as_str()) {
        return None;
    }
    let mut i: usize = 1;
    while i < all.len()
        invariant
            1 <= i <= all.len(),
            model == texts(all@),
            front_end(model) == border_from(model, i as int),
        decreases all.len() - i,
    {
        assert(model[i as int] == all@[i as int]@);
        if is_border_line(all[i].as_str()) {
            return Some(i);
        }
        i = i + 1;
    }
    None
}

/// What is read of a field of front matter.
#[derive(Debug)]
pub struct Field {
    pub key: String,
    /// The value, where it is a text.
    pub text: Option<String>,
    /// The items, where the value is a list: each where it is a text.
    pub items: Option<Vec<Option<String>>>,
    /// The value as JSON.
    pub json: String,
}

/// What is read of a field of front matter, as texts.
#[verifier::ext_equal]
pub struct FieldModel {
    pub key: Seq<char>,
    pub text: Option<Seq<char>>,
    pub items: Option<Seq<Option<Seq<char>>>>,
    pub json: Seq<char>,
}

/// Strings that may be missing, as texts.
pub open spec fn item_texts(v: Seq<Option<String>>) -> Seq<Option<Seq<char>>> {
    v.map_values(|item: Option<String>| opt_text(item))
}

impl View for Field {
    type V = FieldModel;

    open spec fn view(&self) -> FieldModel {
        FieldModel {
            key: self.key@,
            text: opt_text(self.text),
            items: match self.items {
                Some(items) => Some(item_texts(items@)),
                None => None,
            },
            json: self.json@,
        }
    }
}

/// Fields as models.
pub open spec fn field_models(v: Seq<Field>) -> Seq<FieldModel> {
    v.map_values(|field: Field| field@)
}

/// The keys of fields.
pub open spec fn keys_of(fields: Seq<FieldModel>) -> Seq<Seq<char>> {
    fields.map_values(|field: FieldModel| field.key)
}

/// The fields of a YAML mapping, `None` for a text that is none.
pub uninterp spec fn yaml_fields(text: Seq<char>) -> Option<Seq<FieldModel>>;

/// `yaml_serde::from_str` into a `serde_json::Map`: the fields of a YAML mapping, none of
/// them twice, each with what `serde_json::Value` gives as its text, as its items and as its
/// JSON. It fails on a text that is no mapping. An empty text is an empty mapping. The text
/// alone decides what comes back.
#[verifier::external_body]
fn read_yaml(text: &str) -> (r: Option<Vec<Field>>)
    ensures
        match r {
            Some(fields) => yaml_fields(text@) == Some(field_models(fields@)) && keys_of(
                field_models(fields@),
            ).no_duplicates(),
            None => yaml_fields(text@) is None,
        },
{
    let text_of = |value: &serde_json::Value| value.as_str().map(str::to_string);
    let map: serde_json::Map<String, serde_json::Value> = yaml_serde::from_str(text).ok()?;
    Some(map.into_iter().map(|(key, value)| Field {
        key,
        text: text_of(&value),
        items: value.as_array().map(|all| all.iter().map(text_of).collect()),
        json: value.to_string(),
    }).collect())
}

/// The front matter of a note: its text, and the fields of the mapping that it is.
#[derive(Debug)]
pub struct Frontmatter {
    pub text: String,
    pub data: Vec<Field>,
}

/// The front matter of a note, as texts.
#[verifier::ext_equal]
pub struct Front {
    pub text: Seq<char>,
    pub data: Seq<FieldModel>,
}

impl View for Frontmatter {
    type V = Front;

    open spec fn view(&self) -> Front {
        Front { text: self.text@, data: field_models(self.data@) }
    }
}

/// The field with a key.
pub open spec fn field_of(data: Seq<FieldModel>, key: Seq<char>) -> Option<FieldModel>
    decreases data.len(),
{
    if data.len() == 0 {
        None
    } else if data[0].key == key {
        Some(data[0])
    } else {
        field_of(data.drop_first(), key)
    }
}

/// The items that are texts.
pub open spec fn text_items(items: Seq<Option<Seq<char>>>) -> Seq<Seq<char>>
    decreases items.len(),
{
    if items.len() == 0 {
        Seq::empty()
    } else {
        match items.last() {
            Some(text) => text_items(items.drop_last()).push(text),
            None => text_items(items.drop_last()),
        }
    }
}

/// The title that front matter sets.
pub open spec fn title_of(data: Seq<FieldModel>) -> Option<Seq<char>> {
    match field_of(data, "title"@) {
        Some(field) => field.text,
        None => None,
    }
}

/// The tags that front matter sets: the texts in a list, or one text.
pub open spec fn tags_of(data: Seq<FieldModel>) -> Seq<Seq<char>> {
    match field_of(data, "tags"@) {
        Some(field) => match (field.items, field.text) {
            (Some(items), _) => text_items(items),
            (None, Some(text)) => seq![text],
            (None, None) => Seq::empty(),
        },
        None => Seq::empty(),
    }
}

/// Front matter with this text, given the fields that were read from it, if it is a mapping.
pub open spec fn front_with(text: Seq<char>, fields: Option<Seq<FieldModel>>) -> Front {
    Front {
        text,
        data: match fields {
            Some(data) => data,
            None => Seq::empty(),
        },
    }
}

impl Frontmatter {
    /// Front matter with this text, given the fields that were read from it. A text that is no
    /// mapping has none.
    pub fn with_fields(text: String, fields: Option<Vec<Field>>) -> (r: Frontmatter)
        ensures
            r@ == front_with(
                text@,
                match fields {
                    Some(data) => Some(field_models(data@)),
                    None => None,
                },
            ),
    {
        let r = Frontmatter {
            text,
            data: match fields {
                Some(data) => data,
                None => Vec::new(),
            },
        };
        assert(fields is None ==> r@.data =~= Seq::<FieldModel>::empty());
        r
    }

    /// The field with a key.
    pub fn get(&self, key: &str) -> (r: Option<&Field>)
        ensures
            match r {
                Some(field) => field_of(self@.data, key@) == Some(field@),
                None => field_of(self@.data, key@) is None,
            },
    {
        let ghost all = self@.data;
        let mut i: usize = 0;
        assert(all.skip(0) =~= all);
        while i < self.data.len()
            invariant
                i <= self.data.len(),
                all == self@.data,
                field_of(all, key@) == field_of(all.skip(i as int), key@),
            decreases self.data.len() - i,
        {
            assert(all.skip(i as int).drop_first() =~= all.skip(i + 1));
            assert(all.skip(i as int)[0] == self.data@[i as int]@);
            if same(self.data[i].key.as_str(), key) {
                return Some(&self.data[i]);
            }
            i = i + 1;
        }
        None
    }

    /// The title that front matter sets.
    pub fn title(&self) -> (r: Option<String>)
        ensures
            opt_text(r) == title_of(self@.data),
    {
        match self.get("title") {
            Some(field) => copy_opt(&field.text),
            None => None,
        }
    }

    /// The tags that front matter sets: the texts in a list, or one text.
    pub fn tags(&self) -> (r: Vec<String>)
        ensures
            texts(r@) == tags_of(self@.data),
    {
        let mut out: Vec<String> = Vec::new();
        assert(texts(out@) =~= Seq::<Seq<char>>::empty());
        let field = match self.get("tags") {
            Some(field) => field,
            None => {
                return out;
            },
        };
        match &field.items {
            Some(items) => {
                let ghost all = item_texts(items@);
                let mut i: usize = 0;
                assert(texts(out@) =~= text_items(all.take(0)));
                while i < items.len()
                    invariant
                        i <= items.len(),
                        all == item_texts(items@),
                        texts(out@) == text_items(all.take(i as int)),
                    decreases items.len() - i,
                {
                    assert(all.take(i + 1).drop_last() =~= all.take(i as int));
                    assert(all[i as int] == opt_text(items@[i as int]));
                    if let Some(text) = &items[i] {
                        let ghost before = texts(out@);
                        out.push(text.clone());
                        assert(texts(out@) =~= before.push(text@));
                    }
                    i = i + 1;
                }
                assert(all.take(i as int) =~= all);
            },
            None => {
                if let Some(text) = &field.text {
                    out.push(text.clone());
                    assert(texts(out@) =~= seq![text@]);
                }
            },
        }
        out
    }
}

/// The text of front matter: its lines between the borders, each with its end.
pub open spec fn front_text(inner: Seq<Seq<char>>) -> Seq<char>
    decreases inner.len(),
{
    if inner.len() == 0 {
        Seq::empty()
    } else {
        front_text(inner.drop_last()) + inner.last().push('\n')
    }
}

/// The front matter of the lines of a note, if there is any: YAML between its borders.
pub open spec fn front_of(all: Seq<Seq<char>>) -> Option<Front> {
    match front_end(all) {
        Some(close) => {
            let text = front_text(all.subrange(1, close));
            Some(front_with(text, yaml_fields(text)))
        },
        None => None,
    }
}

/// The front matter of the lines of a note, if there is any.
pub fn read_frontmatter(all: &Vec<String>) -> (r: Option<Frontmatter>)
    ensures
        match r {
            Some(front) => front_of(texts(all@)) == Some(front@) && keys_of(
                front@.data,
            ).no_duplicates(),
            None => front_of(texts(all@)) is None,
        },
{
    let close: usize = match end_of_front(all) {
        Some(close) => close,
        None => {
            return None;
        },
    };
    let ghost inner = texts(all@).subrange(1, close as int);
    let mut text: String = String::new();
    let mut i: usize = 1;
    assert(text@ =~= front_text(inner.take(0)));
    while i < close
        invariant
            1 <= i <= close < all.len(),
            inner == texts(all@).subrange(1, close as int),
            text@ == front_text(inner.take(i - 1)),
        decreases close - i,
    {
        assert(inner.take(i as int).drop_last() =~= inner.take(i - 1));
        assert(inner.take(i as int).last() == all@[i as int]@);
        let ghost before = text@;
        text.append(all[i].as_str());
        text.push('\n');
        assert(text@ =~= before + all@[i as int]@.push('\n'));
        i = i + 1;
    }
    assert(inner.take(close - 1) =~= inner);
    let fields = read_yaml(text.as_str());
    Some(Frontmatter::with_fields(text, fields))
}

// ---------------------------------------------------------------------------
// Prose
// ---------------------------------------------------------------------------

/// The fence that is open before a line.
pub open spec fn fence_before(all: Seq<Seq<char>>, i: int) -> Option<OpenFence>
    decreases i - front_lines(all),
{
    if i <= front_lines(all) {
        None
    } else {
        fence_after(all[i - 1], fence_before(all, i - 1))
    }
}

/// Whether a line is prose: it stands behind the front matter, no fence is open before it,
/// and it opens none.
pub open spec fn is_prose(all: Seq<Seq<char>>, i: int) -> bool {
    front_lines(all) <= i && fence_before(all, i) is None && fence_before(all, i + 1) is None
}

/// The prose among the first lines of a note.
pub open spec fn prose_of(all: Seq<Seq<char>>, n: int) -> Seq<Prose>
    decreases n,
{
    if n <= 0 {
        Seq::empty()
    } else if is_prose(all, n - 1) {
        prose_of(all, n - 1).push(Prose { number: n as nat, text: all[n - 1] })
    } else {
        prose_of(all, n - 1)
    }
}

/// Nothing of the front matter is prose.
proof fn lemma_front_is_no_prose(all: Seq<Seq<char>>, n: int)
    requires
        n <= front_lines(all),
    ensures
        prose_of(all, n) == Seq::<Prose>::empty(),
    decreases n,
{
    if n > 0 {
        lemma_front_is_no_prose(all, n - 1);
    }
}

/// The prose of a note.
pub fn read_prose(all: &Vec<String>) -> (out: Vec<ProseLine>)
    ensures
        prose_models(out@) == prose_of(texts(all@), all.len() as int),
{
    let ghost model = texts(all@);
    let start: usize = match end_of_front(all) {
        Some(close) => close + 1,
        None => 0,
    };
    let mut out: Vec<ProseLine> = Vec::new();
    let mut open: Option<OpenFence> = None;
    let mut i: usize = start;
    proof {
        lemma_front_is_no_prose(model, start as int);
    }
    assert(prose_models(out@) =~= Seq::<Prose>::empty());
    while i < all.len()
        invariant
            start <= i <= all.len(),
            model == texts(all@),
            start == front_lines(model),
            open == fence_before(model, i as int),
            prose_models(out@) == prose_of(model, i as int),
        decreases all.len() - i,
    {
        let line = all[i].as_str();
        assert(model[i as int] == line@);
        let next: Option<OpenFence> = next_fence_state(line, open);
        assert(next == fence_before(model, i + 1));
        if open.is_none() && next.is_none() {
            let ghost before = prose_models(out@);
            let kept = ProseLine { number: i + 1, text: copy(line) };
            out.push(kept);
            assert(prose_models(out@) =~= before.push(kept@));
        }
        open = next;
        i = i + 1;
    }
    out
}

// ---------------------------------------------------------------------------
// What prose promises
// ---------------------------------------------------------------------------

/// Each line of prose is a line of the note, outside its front matter and its fences, under
/// its own number.
pub proof fn lemma_prose_lines_are_prose(all: Seq<Seq<char>>, n: int, i: int)
    requires
        n <= all.len(),
        0 <= i < prose_of(all, n).len(),
    ensures
        ({
            let line = prose_of(all, n)[i];
            &&& 1 <= line.number <= n
            &&& line.text == all[line.number - 1]
            &&& is_prose(all, line.number - 1)
        }),
    decreases n,
{
    if i < prose_of(all, n - 1).len() {
        lemma_prose_lines_are_prose(all, n - 1, i);
    }
}

/// The numbers of the lines of prose grow.
pub proof fn lemma_prose_numbers_grow(all: Seq<Seq<char>>, n: int)
    requires
        n <= all.len(),
    ensures
        forall|i: int, j: int|
            0 <= i < j < prose_of(all, n).len() ==> (#[trigger] prose_of(all, n)[i]).number < (
            #[trigger] prose_of(all, n)[j]).number,
    decreases n,
{
    if n > 0 {
        lemma_prose_numbers_grow(all, n - 1);
        let before = prose_of(all, n - 1);
        let now = prose_of(all, n);
        assert forall|i: int, j: int| 0 <= i < j < now.len() implies (#[trigger] now[i]).number < (
        #[trigger] now[j]).number by {
            assert(now[i] == before[i]);
            if j < before.len() {
                assert(now[j] == before[j]);
            } else {
                lemma_prose_lines_are_prose(all, n - 1, i);
            }
        }
    }
}

} // verus!
