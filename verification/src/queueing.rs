//! What is sent to be embedded, and for what: the input of a chunk, and the queue of the
//! chunks of a source.
use crate::coverage::{has_ink, lemma_blank_has_no_ink};
use crate::index::{
    entries, is_excluded, Entry, StoredIndex, CHUNKER_VERSION, INDEX_SCHEMA_VERSION,
};
use crate::numbers::decimal;
use crate::reindex::{
    batch_of, collected, embedding_input, inputs_of, lemma_input_names_its_source, pending_of,
    queued, section_line, source_fate, source_positions, with_source, Build, Embedded, Fate, Seen,
};
use crate::text::{contains, occurs_at};
use vstd::prelude::*;

verus! {

// ---------------------------------------------------------------------------
// One input
// ---------------------------------------------------------------------------

proof fn lemma_contains_middle(a: Seq<char>, m: Seq<char>, b: Seq<char>)
    ensures
        contains(a + m + b, m),
{
    assert((a + m + b).subrange(a.len() as int, a.len() as int + m.len()) =~= m);
    assert(occurs_at(a + m + b, m, a.len() as int));
}

/// Whatever is embedded ends with the whole text of its chunk, right behind the line that
/// announces it, and begins with the title of its note and the kind of its source.
pub proof fn lemma_input_ends_with_its_text(
    title: Seq<char>,
    source_type: Seq<char>,
    heading: Option<Seq<char>>,
    path: Seq<char>,
    text: Seq<char>,
)
    ensures
        ({
            let input = embedding_input(title, source_type, heading, path, text);
            let front = "Title: "@ + title + "\nType: "@ + source_type + "\n"@;
            let back = "Path: "@ + path + "\nContent:\n"@ + text;
            let named = match heading {
                Some(value) => "Section: "@.len() + value.len() + "\n"@.len(),
                None => 0,
            };
            &&& contains(input, text)
            &&& contains(input, source_type)
            &&& input.skip(input.len() - text.len()) == text
            &&& input.take(front.len() as int) == front
            &&& input.skip(input.len() - back.len()) == back
            &&& input.len() == front.len() + named + back.len()
            &&& heading matches Some(value) ==> input.subrange(
                front.len() as int,
                input.len() - back.len(),
            ) == "Section: "@ + value + "\n"@
        }),
{
    let input = embedding_input(title, source_type, heading, path, text);
    let front = "Title: "@ + title + "\nType: "@ + source_type + "\n"@;
    let back = "Path: "@ + path + "\nContent:\n"@ + text;
    let line = section_line(heading);
    assert(input =~= front + line + back);
    assert(input.take(front.len() as int) =~= front);
    assert(input.skip(input.len() - back.len()) =~= back);
    assert(input.skip(input.len() - text.len()) =~= text);
    assert(input.subrange(front.len() as int, input.len() - back.len()) =~= line);
    let none = Seq::<char>::empty();
    lemma_contains_middle(input.take(input.len() - text.len()), text, none);
    assert(input =~= input.take(input.len() - text.len()) + text + none);
    assert(contains(input, source_type)) by {
        let head = "Title: "@ + title + "\nType: "@;
        let tail = "\n"@ + line + back;
        lemma_contains_middle(head, source_type, tail);
        assert(input =~= head + source_type + tail);
    }
}

proof fn lemma_split(
    s: Seq<char>,
    t: Seq<char>,
    a: Seq<char>,
    x: Seq<char>,
    y: Seq<char>,
    b: Seq<char>,
)
    requires
        s =~= a + x + b,
        t =~= a + y + b,
    ensures
        x != y ==> s != t,
{
    if s == t {
        assert(s.len() == a.len() + x.len() + b.len());
        assert(t.len() == a.len() + y.len() + b.len());
        assert(s.subrange(a.len() as int, (a.len() + x.len()) as int) =~= x);
        assert(t.subrange(a.len() as int, (a.len() + y.len()) as int) =~= y);
        assert(x == y);
    }
}

proof fn lemma_text_tells(
    title: Seq<char>,
    source_type: Seq<char>,
    heading: Option<Seq<char>>,
    path: Seq<char>,
    text: Seq<char>,
    other: Seq<char>,
)
    ensures
        other != text ==> embedding_input(title, source_type, heading, path, other) != embedding_input(
            title,
            source_type,
            heading,
            path,
            text,
        ),
{
    let input = embedding_input(title, source_type, heading, path, text);
    let line = section_line(heading);
    let head = "Title: "@ + title + "\nType: "@ + source_type + "\n"@ + line + "Path: "@ + path
        + "\nContent:\n"@;
    let none = Seq::<char>::empty();
    let twin = embedding_input(title, source_type, heading, path, other);
    lemma_split(twin, input, head, other, text, none);
}

proof fn lemma_path_tells(
    title: Seq<char>,
    source_type: Seq<char>,
    heading: Option<Seq<char>>,
    path: Seq<char>,
    text: Seq<char>,
    other: Seq<char>,
)
    ensures
        other != path ==> embedding_input(title, source_type, heading, other, text) != embedding_input(
            title,
            source_type,
            heading,
            path,
            text,
        ),
{
    let input = embedding_input(title, source_type, heading, path, text);
    let line = section_line(heading);
    let head = "Title: "@ + title + "\nType: "@ + source_type + "\n"@ + line + "Path: "@;
    let tail = "\nContent:\n"@ + text;
    let twin = embedding_input(title, source_type, heading, other, text);
    lemma_split(twin, input, head, other, path, tail);
}

proof fn lemma_kind_tells(
    title: Seq<char>,
    source_type: Seq<char>,
    heading: Option<Seq<char>>,
    path: Seq<char>,
    text: Seq<char>,
    other: Seq<char>,
)
    ensures
        other != source_type ==> embedding_input(title, other, heading, path, text) != embedding_input(
            title,
            source_type,
            heading,
            path,
            text,
        ),
{
    let input = embedding_input(title, source_type, heading, path, text);
    let line = section_line(heading);
    let head = "Title: "@ + title + "\nType: "@;
    let tail = "\n"@ + line + "Path: "@ + path + "\nContent:\n"@ + text;
    let twin = embedding_input(title, other, heading, path, text);
    lemma_split(twin, input, head, other, source_type, tail);
}

proof fn lemma_title_tells(
    title: Seq<char>,
    source_type: Seq<char>,
    heading: Option<Seq<char>>,
    path: Seq<char>,
    text: Seq<char>,
    other: Seq<char>,
)
    ensures
        other != title ==> embedding_input(other, source_type, heading, path, text) != embedding_input(
            title,
            source_type,
            heading,
            path,
            text,
        ),
{
    let input = embedding_input(title, source_type, heading, path, text);
    let line = section_line(heading);
    let tail = "\nType: "@ + source_type + "\n"@ + line + "Path: "@ + path + "\nContent:\n"@
        + text;
    let twin = embedding_input(other, source_type, heading, path, text);
    lemma_split(twin, input, "Title: "@, other, title, tail);
}

proof fn lemma_heading_tells(
    title: Seq<char>,
    source_type: Seq<char>,
    heading: Option<Seq<char>>,
    path: Seq<char>,
    text: Seq<char>,
    other: Seq<char>,
)
    ensures
        heading != Some(other) ==> embedding_input(title, source_type, Some(other), path, text) != embedding_input(
            title,
            source_type,
            heading,
            path,
            text,
        ),
{
    let input = embedding_input(title, source_type, heading, path, text);
    let line = section_line(heading);
    let more = section_line(Some(other));
    let head = "Title: "@ + title + "\nType: "@ + source_type + "\n"@;
    let tail = "Path: "@ + path + "\nContent:\n"@ + text;
    let twin = embedding_input(title, source_type, Some(other), path, text);
    lemma_split(twin, input, head, more, line, tail);
    match heading {
        Some(value) => {
            lemma_split(more, line, "Section: "@, other, value, "\n"@);
        },
        None => {
            reveal_strlit("\n");
        },
    }
}

/// Chunks that differ in one thing alone, be it the title of their note, the kind of their
/// source, their heading, their path or their text, are not embedded alike.
pub proof fn lemma_inputs_tell_chunks_apart(
    title: Seq<char>,
    source_type: Seq<char>,
    heading: Option<Seq<char>>,
    path: Seq<char>,
    text: Seq<char>,
    other: Seq<char>,
)
    ensures
        other != text ==> embedding_input(title, source_type, heading, path, other)
            != embedding_input(title, source_type, heading, path, text),
        other != path ==> embedding_input(title, source_type, heading, other, text)
            != embedding_input(title, source_type, heading, path, text),
        other != source_type ==> embedding_input(title, other, heading, path, text)
            != embedding_input(title, source_type, heading, path, text),
        other != title ==> embedding_input(other, source_type, heading, path, text)
            != embedding_input(title, source_type, heading, path, text),
        heading != Some(other) ==> embedding_input(title, source_type, Some(other), path, text)
            != embedding_input(title, source_type, heading, path, text),
{
    lemma_text_tells(title, source_type, heading, path, text, other);
    lemma_path_tells(title, source_type, heading, path, text, other);
    lemma_kind_tells(title, source_type, heading, path, text, other);
    lemma_title_tells(title, source_type, heading, path, text, other);
    lemma_heading_tells(title, source_type, heading, path, text, other);
}

// ---------------------------------------------------------------------------
// The queue
// ---------------------------------------------------------------------------

/// What waits of the text of a source stands for its chunks, one for one and in their order:
/// each chunk that says anything has one place in the queue, with its plain text, its
/// heading and its number, under the path, the title and the content of its source; and
/// what is sent for it ends with that plain text.
pub proof fn lemma_queue_follows_the_chunks(
    build: Build,
    index: Option<StoredIndex>,
    model: Seq<char>,
    source: Seen,
    text: Embedded,
) -> (numbers: Seq<int>)
    requires
        source_fate(index, model, source.path, source.content_hash) is Embed,
        source.text == Some(text),
    ensures
        ({
            let before = build.pending;
            let after = with_source(build, index, model, source).pending;
            let new = after.skip(before.len() as int);
            let chunks = text.cut.chunks();
            &&& after == before + new
            &&& new.len() == numbers.len()
            &&& forall|i: int, j: int| 0 <= i < j < numbers.len() ==> numbers[i] < numbers[j]
            &&& forall|n: int|
                #![trigger numbers.contains(n)]
                numbers.contains(n) <==> 0 <= n < chunks.len() && has_ink(text.plain[n])
            &&& forall|k: int|
                #![trigger new[k]]
                0 <= k < new.len() ==> {
                    let item = new[k];
                    let said = text.plain[numbers[k]];
                    &&& item.text == said
                    &&& item.heading == chunks[numbers[k]].heading
                    &&& item.id == source.path + "#"@ + decimal(numbers[k] as nat)
                    &&& item.path == source.path
                    &&& item.title == text.cut.title
                    &&& item.content_hash == source.content_hash
                    &&& contains(item.input, said)
                    &&& item.input.skip(item.input.len() - said.len()) == said
                    &&& contains(item.input, item.path)
                    &&& contains(item.input, item.title)
                    &&& contains(item.input, text.cut.source_type)
                    &&& item.heading matches Some(value) ==> contains(item.input, value)
                }
        }),
{
    let before = build.pending;
    let after = with_source(build, index, model, source).pending;
    let chunks = text.cut.chunks();
    let numbers = lemma_queue_numbers(source, text, chunks.len() as int);
    let added = pending_of(
        source.path,
        text.cut.title,
        text.cut.source_type,
        chunks,
        text.plain,
        source.content_hash,
    );
    assert(chunks.take(chunks.len() as int) =~= chunks);
    assert(after =~= before + added);
    let new = after.skip(before.len() as int);
    assert(new =~= added);
    assert forall|k: int|
        #![trigger new[k]]
        0 <= k < new.len() implies {
        let item = new[k];
        let said = text.plain[numbers[k]];
        &&& item.text == said
        &&& item.heading == chunks[numbers[k]].heading
        &&& item.id == source.path + "#"@ + decimal(numbers[k] as nat)
        &&& item.path == source.path
        &&& item.title == text.cut.title
        &&& item.content_hash == source.content_hash
        &&& contains(item.input, said)
        &&& item.input.skip(item.input.len() - said.len()) == said
        &&& contains(item.input, item.path)
        &&& contains(item.input, item.title)
        &&& contains(item.input, text.cut.source_type)
        &&& item.heading matches Some(value) ==> contains(item.input, value)
    } by {
        let item = new[k];
        assert(item == queued(source, text, numbers[k]));
        let kind = text.cut.source_type;
        lemma_input_ends_with_its_text(item.title, kind, item.heading, item.path, item.text);
        lemma_input_names_its_source(item.title, kind, item.heading, item.path, item.text);
    }
    numbers
}

proof fn lemma_queue_numbers(source: Seen, text: Embedded, count: int) -> (numbers: Seq<int>)
    requires
        0 <= count <= text.cut.chunks().len(),
    ensures
        ({
            let new = pending_of(
                source.path,
                text.cut.title,
                text.cut.source_type,
                text.cut.chunks().take(count),
                text.plain,
                source.content_hash,
            );
            &&& new.len() == numbers.len()
            &&& forall|i: int, j: int| 0 <= i < j < numbers.len() ==> numbers[i] < numbers[j]
            &&& forall|n: int|
                #![trigger numbers.contains(n)]
                numbers.contains(n) <==> 0 <= n < count && has_ink(text.plain[n])
            &&& forall|k: int|
                0 <= k < new.len() ==> #[trigger] new[k] == queued(source, text, numbers[k])
        }),
    decreases count,
{
    if count == 0 {
        Seq::empty()
    } else {
        let chunks = text.cut.chunks();
        let front = lemma_queue_numbers(source, text, count - 1);
        assert(chunks.take(count).drop_last() =~= chunks.take(count - 1));
        let said = text.plain[count - 1];
        lemma_blank_has_no_ink(said);
        if has_ink(said) {
            let numbers = front.push(count - 1);
            assert forall|n: int|
                #![trigger numbers.contains(n)]
                numbers.contains(n) <==> 0 <= n < count && has_ink(text.plain[n]) by {
                if numbers.contains(n) && n != count - 1 {
                    assert(front.contains(n));
                }
                if front.contains(n) {
                    assert(numbers[front.index_of(n)] == n);
                }
                assert(numbers[front.len() as int] == count - 1);
            }
            assert forall|i: int, j: int| 0 <= i < j < numbers.len() implies numbers[i]
                < numbers[j] by {
                assert(front.contains(numbers[i]));
            }
            numbers
        } else {
            front
        }
    }
}

// ---------------------------------------------------------------------------
// What becomes of a source
// ---------------------------------------------------------------------------

proof fn lemma_positions_of(all: Seq<Entry>, path: Seq<char>)
    ensures
        ({
            let held = source_positions(all, path);
            &&& forall|a: int, b: int| 0 <= a < b < held.len() ==> held[a] < held[b]
            &&& forall|p: int| #[trigger]
                held.contains(p) <==> 0 <= p < all.len() && all[p].path == path
        }),
    decreases all.len(),
{
    if all.len() > 0 {
        let front = all.drop_last();
        let before = source_positions(front, path);
        let held = source_positions(all, path);
        lemma_positions_of(front, path);
        assert forall|p: int| #[trigger]
            held.contains(p) <==> 0 <= p < all.len() && all[p].path == path by {
            if held.contains(p) {
                let k = held.index_of(p);
                if k < before.len() {
                    assert(before[k] == p);
                    assert(before.contains(p));
                    assert(front[p] == all[p]);
                }
            }
            if 0 <= p < front.len() && all[p].path == path {
                assert(front[p] == all[p]);
                assert(before.contains(p));
                assert(held[before.index_of(p)] == p);
            }
            if p == all.len() - 1 && all[p].path == path {
                assert(held[before.len() as int] == p);
            }
        }
        assert forall|a: int, b: int| 0 <= a < b < held.len() implies held[a] < held[b] by {
            assert(held[a] == before[a]);
            assert(before.contains(before[a]));
            if b < before.len() {
                assert(held[b] == before[b]);
            }
        }
    }
}

/// An excluded source is left out. Another one keeps the chunks that the index holds of it, in
/// their order and all of them, where the index was made in the same way for the same model
/// and the first of these chunks was made of the same content. Any other source is embedded.
pub proof fn lemma_only_changed_sources_are_embedded(
    index: Option<StoredIndex>,
    model: Seq<char>,
    path: Seq<char>,
    hash: Seq<char>,
    first: int,
)
    requires
        index matches Some(stored) ==> 0 <= first <= stored.chunks@.len(),
        index matches Some(stored) ==> forall|k: int|
            0 <= k < first ==> (#[trigger] stored.chunks@[k]).path@ != path,
        index matches Some(stored) ==> first < stored.chunks@.len() ==> stored.chunks@[first].path@
            == path,
    ensures
        ({
            let fate = source_fate(index, model, path, hash);
            let holds = index matches Some(stored) && stored.schema_version == INDEX_SCHEMA_VERSION
                && stored.chunker_version@ == CHUNKER_VERSION@ && stored.model@ == model && first
                < stored.chunks@.len() && stored.chunks@[first].content_hash@ == hash;
            &&& is_excluded(path) ==> fate == Fate::Skip
            &&& !is_excluded(path) && !holds ==> fate == Fate::Embed
            &&& !is_excluded(path) && holds ==> match fate {
                Fate::Reuse(held) => {
                    &&& forall|a: int, b: int| 0 <= a < b < held.len() ==> held[a] < held[b]
                    &&& forall|p: int| #[trigger]
                        held.contains(p) <==> 0 <= p < index->0.chunks@.len()
                            && index->0.chunks@[p].path@ == path
                },
                _ => false,
            }
        }),
{
    match index {
        Some(stored) => {
            let all = entries(stored.chunks@);
            let held = source_positions(all, path);
            lemma_positions_of(all, path);
            assert forall|p: int| 0 <= p < all.len() implies #[trigger] all[p]
                == stored.chunks@[p]@ by {}
            if first < stored.chunks@.len() {
                assert(all[first].path == path);
                assert(held.contains(first));
                let k = held.index_of(first);
                assert(held.contains(held[0]));
                assert(stored.chunks@[held[0]].path@ == path);
                if k > 0 {
                    assert(held[0] < held[k]);
                }
                assert(held[0] == first);
            } else if held.len() > 0 {
                assert(held.contains(held[0]));
                assert(stored.chunks@[held[0]].path@ == path);
            }
            assert forall|p: int| #[trigger]
                held.contains(p) <==> 0 <= p < stored.chunks@.len() && stored.chunks@[p].path@
                    == path by {
                if 0 <= p < all.len() {
                    assert(all[p] == stored.chunks@[p]@);
                }
            }
        },
        None => {},
    }
}

/// A build only grows: what it keeps and what waits stays in its place, whatever source comes
/// next. A source that is left out adds nothing, one that is kept adds to what is kept alone,
/// and one that is embedded to what waits alone.
pub proof fn lemma_a_build_only_grows(
    build: Build,
    index: Option<StoredIndex>,
    model: Seq<char>,
    source: Seen,
)
    ensures
        ({
            let after = with_source(build, index, model, source);
            let fate = source_fate(index, model, source.path, source.content_hash);
            &&& after.dimensions == build.dimensions
            &&& after.kept.len() >= build.kept.len()
            &&& after.pending.len() >= build.pending.len()
            &&& forall|k: int| 0 <= k < build.kept.len() ==> #[trigger] after.kept[k]
                == build.kept[k]
            &&& forall|k: int|
                0 <= k < build.pending.len() ==> #[trigger] after.pending[k] == build.pending[k]
            &&& fate is Skip ==> after == build
            &&& fate matches Fate::Reuse(held) ==> after.pending == build.pending && after.kept
                == build.kept + held
            &&& fate is Embed ==> after.kept == build.kept
            &&& fate is Embed && source.text is None ==> after == build
        }),
{
}

/// The chunks of a finished build are those that were kept, as the index has them, and then
/// one for each chunk that waited, as it waited and with its own vector.
pub proof fn lemma_nothing_changes_on_the_way_into_the_index(
    index: Option<StoredIndex>,
    build: Build,
)
    requires
        index is None ==> build.kept.len() == 0,
    ensures
        ({
            let all = collected(index, build);
            let n = build.kept.len();
            &&& all.len() == n + build.pending.len()
            &&& forall|k: int|
                0 <= k < n ==> #[trigger] all[k] == index->0.chunks@[build.kept[k]]@
            &&& forall|k: int|
                0 <= k < build.pending.len() ==> {
                    let chunk = all[n + k];
                    let item = #[trigger] build.pending[k];
                    &&& chunk.id == item.id
                    &&& chunk.path == item.path
                    &&& chunk.title == item.title
                    &&& chunk.heading == item.heading
                    &&& chunk.text == item.text
                    &&& chunk.content_hash == item.content_hash
                    &&& chunk.dimension == build.dimensions[k]
                }
        }),
{
}

/// Batches go through the queue from its front to its end: each holds the inputs of the next
/// chunks in their order, as many as a batch may hold or as are left.
pub proof fn lemma_batches_go_through_the_queue(build: Build, batch_size: nat)
    requires
        build.dimensions.len() <= build.pending.len(),
    ensures
        ({
            let start = build.dimensions.len() as int;
            let sent = inputs_of(build.pending.subrange(start, batch_of(build, batch_size)));
            let left = build.pending.len() - start;
            &&& sent.len() == if left <= batch_size {
                left
            } else {
                batch_size as int
            }
            &&& forall|k: int|
                0 <= k < sent.len() ==> #[trigger] sent[k] == build.pending[start + k].input
        }),
{
}

} // verus!
