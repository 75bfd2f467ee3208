//! Reopening a passage of the index with its neighbours.
//!
//! The passage that was asked for comes first in the budget; its neighbours of
//! the same top-level section only fill what it leaves, and all of them are
//! returned in document order.
use crate::error::{Error, Fault};
use crate::hashing::{digest_text, hex_hash};
use crate::index::{entries, EmbeddingChunk, Entry, StoredIndex};
use crate::numbers::{number_of, parse_size};
use crate::sorting::{
    in_order, insert_by, is_order, lemma_insert_at, lemma_sort_in_order, lemma_sort_permutes,
    sort_by,
};
use crate::text::{chars_of, copy, copy_opt, find_from, opt_text, position_of, same, slice_text};
use vstd::prelude::*;
use vstd::utf8::encode_utf8;

verus! {

/// The largest budget of a request, in characters.
pub const MAX_PASSAGE_CHARS: usize = 12_000;

/// How far from the passage its neighbours may lie.
pub const MAX_NEIGHBORS: usize = 3;

/// One passage as it is handed out.
#[derive(Debug)]
pub struct IndexedPassage {
    pub chunk_id: String,
    pub heading: Option<String>,
    pub text: String,
    /// Whether the text was cut to fit the budget.
    pub truncated: bool,
    /// Whether this is the passage that was asked for.
    pub anchor: bool,
}

/// The model of a passage.
pub struct Passage {
    pub chunk_id: Seq<char>,
    pub heading: Option<Seq<char>>,
    pub text: Seq<char>,
    pub truncated: bool,
    pub anchor: bool,
}

impl View for IndexedPassage {
    type V = Passage;

    open spec fn view(&self) -> Passage {
        Passage {
            chunk_id: self.chunk_id@,
            heading: opt_text(self.heading),
            text: self.text@,
            truncated: self.truncated,
            anchor: self.anchor,
        }
    }
}

/// The model of a vector of passages.
pub open spec fn passages(v: Seq<IndexedPassage>) -> Seq<Passage> {
    v.map_values(|p: IndexedPassage| p@)
}

/// A reopened passage with its neighbours.
#[derive(Debug)]
pub struct PassageRead {
    pub path: String,
    pub anchor_id: String,
    pub anchor_hash: String,
    pub built_at: String,
    pub index_stale: bool,
    pub chunks: Vec<IndexedPassage>,
}

// ---------------------------------------------------------------------------
// The chunks of one note, in document order
// ---------------------------------------------------------------------------

/// The position of the last `#`, if there is one.
pub open spec fn last_hash(id: Seq<char>) -> Option<int>
    decreases id.len(),
{
    if id.len() == 0 {
        None
    } else if id.last() == '#' {
        Some(id.len() - 1)
    } else {
        last_hash(id.drop_last())
    }
}

/// The number behind the last `#` of an identifier, -1 where there is none.
pub open spec fn ordinal(id: Seq<char>) -> int {
    match last_hash(id) {
        Some(at) => match number_of(id.skip(at + 1), usize::MAX as nat) {
            Some(n) => n as int,
            None => -1,
        },
        None => -1,
    }
}

/// The order of the chunks of a note: by their number.
pub open spec fn ordinal_order() -> spec_fn(Entry, Entry) -> bool {
    |a: Entry, b: Entry| ordinal(a.id) < ordinal(b.id)
}

/// The chunks of one note, as they stand in the index.
pub open spec fn of_path(all: Seq<Entry>, path: Seq<char>) -> Seq<Entry>
    decreases all.len(),
{
    if all.len() == 0 {
        all
    } else if all.last().path == path {
        of_path(all.drop_last(), path).push(all.last())
    } else {
        of_path(all.drop_last(), path)
    }
}

/// The chunks of one note, in document order.
pub open spec fn note_chunks(all: Seq<Entry>, path: Seq<char>) -> Seq<Entry> {
    sort_by(of_path(all, path), ordinal_order())
}

/// The number behind the last `#` of an identifier, -1 where there is none.
fn ordinal_of(id: &str) -> (r: i128)
    ensures
        r == ordinal(id@),
{
    let chars = chars_of(id);
    let mut end: usize = chars.len();
    assert(chars@.take(end as int) =~= id@);
    while end > 0 && chars[end - 1] != '#'
        invariant
            end <= chars.len(),
            chars@ == id@,
            last_hash(id@) == last_hash(chars@.take(end as int)),
        decreases end,
    {
        assert(chars@.take(end as int).drop_last() =~= chars@.take(end - 1));
        end = end - 1;
    }
    if end == 0 {
        return -1;
    }
    let digits = slice_text(&chars, end, chars.len());
    assert(digits@ =~= id@.skip(end as int));
    match parse_size(digits.as_str()) {
        Some(n) => n as i128,
        None => -1,
    }
}

/// The positions in the index of the chunks of one note, in document order.
fn note_positions(chunks: &Vec<EmbeddingChunk>, path: &str) -> (out: Vec<usize>)
    ensures
        forall|k: int| 0 <= k < out.len() ==> #[trigger] out@[k] < chunks.len(),
        out@.map_values(|p: usize| chunks@[p as int]@) == note_chunks(entries(chunks@), path@),
{
    let ghost all = entries(chunks@);
    let mut out: Vec<usize> = Vec::new();
    let mut i: usize = 0;
    let ghost shown = |s: Seq<usize>| s.map_values(|p: usize| chunks@[p as int]@);
    assert(shown(out@) =~= sort_by(of_path(all.take(0), path@), ordinal_order()));
    while i < chunks.len()
        invariant
            i <= chunks.len(),
            all == entries(chunks@),
            shown == (|s: Seq<usize>| s.map_values(|p: usize| chunks@[p as int]@)),
            forall|k: int| 0 <= k < out.len() ==> #[trigger] out@[k] < chunks.len(),
            shown(out@) == sort_by(of_path(all.take(i as int), path@), ordinal_order()),
        decreases chunks.len() - i,
    {
        assert(all.take(i + 1).drop_last() =~= all.take(i as int));
        assert(all[i as int] == chunks@[i as int]@);
        if same(chunks[i].path.as_str(), path) {
            let ghost before = shown(out@);
            let ghost entry = chunks@[i as int]@;
            let number: i128 = ordinal_of(chunks[i].id.as_str());
            let mut k: usize = out.len();
            let mut moving: bool = true;
            while moving
                invariant
                    k <= out.len(),
                    i < chunks.len(),
                    shown == (|s: Seq<usize>| s.map_values(|p: usize| chunks@[p as int]@)),
                    before == shown(out@),
                    entry == chunks@[i as int]@,
                    number == ordinal(entry.id),
                    forall|m: int| 0 <= m < out.len() ==> #[trigger] out@[m] < chunks.len(),
                    forall|j: int|
                        k <= j < before.len() ==> ordinal_order()(entry, #[trigger] before[j]),
                    !moving ==> k == 0 || !ordinal_order()(entry, before[k - 1]),
                decreases k, (if moving { 1int } else { 0int }),
            {
                if k == 0 {
                    moving = false;
                } else {
                    let other: usize = out[k - 1];
                    assert(before[k - 1] == chunks@[other as int]@);
                    if number < ordinal_of(chunks[other].id.as_str()) {
                        k = k - 1;
                    } else {
                        moving = false;
                    }
                }
            }
            let ghost old_out = out@;
            out.insert(k, i);
            proof {
                lemma_insert_at(before, entry, ordinal_order(), k as int);
                assert(shown(out@) =~= before.insert(k as int, entry));
                assert forall|m: int| 0 <= m < out.len() implies #[trigger] out@[m]
                    < chunks.len() by {
                    if m < k {
                        assert(out@[m] == old_out[m]);
                    } else if m > k {
                        assert(out@[m] == old_out[m - 1]);
                    }
                }
                let sorted = of_path(all.take(i + 1), path@);
                assert(sorted.drop_last() =~= of_path(all.take(i as int), path@));
            }
        }
        i = i + 1;
    }
    assert(all.take(i as int) =~= all);
    out
}

// ---------------------------------------------------------------------------
// Choosing the neighbours
// ---------------------------------------------------------------------------

/// The first heading of a breadcrumb: what stands before the first ` > `.
pub open spec fn root_of(heading: Seq<char>) -> Seq<char> {
    match position_of(heading, " > "@, 0) {
        Some(at) => heading.take(at),
        None => heading,
    }
}

/// The first heading of an optional breadcrumb.
pub open spec fn opt_root(heading: Option<Seq<char>>) -> Option<Seq<char>> {
    match heading {
        Some(value) => Some(root_of(value)),
        None => None,
    }
}

/// The first heading of an optional breadcrumb.
pub fn root_heading(heading: &Option<String>) -> (r: Option<String>)
    ensures
        opt_text(r) == opt_root(opt_text(*heading)),
{
    match heading {
        Some(value) => {
            let chars = chars_of(value.as_str());
            let arrow = chars_of(" > ");
            match find_from(&chars, &arrow, 0) {
                Some(at) => {
                    let root = slice_text(&chars, 0, at);
                    assert(root@ =~= value@.take(at as int));
                    Some(root)
                },
                None => Some(value.clone()),
            }
        },
        None => None,
    }
}

/// Whether the chunk at a position exists and lies in the same top-level section.
pub open spec fn is_neighbor(note: Seq<Entry>, at: int, position: int) -> bool {
    0 <= position < note.len() && opt_root(note[position].heading) == opt_root(note[at].heading)
}

/// The positions at this distance that are neighbours, the one before first.
pub open spec fn at_distance(note: Seq<Entry>, at: int, distance: int) -> Seq<int> {
    let before = if is_neighbor(note, at, at - distance) {
        seq![at - distance]
    } else {
        Seq::empty()
    };
    if is_neighbor(note, at, at + distance) {
        before.push(at + distance)
    } else {
        before
    }
}

/// The positions of a passage and of its neighbours up to a distance, the nearer
/// ones first.
pub open spec fn positions(note: Seq<Entry>, at: int, neighbors: nat) -> Seq<int>
    decreases neighbors,
{
    if neighbors == 0 {
        seq![at]
    } else {
        positions(note, at, (neighbors - 1) as nat) + at_distance(note, at, neighbors as int)
    }
}

/// Passages that were chosen, each with its position, and what is left of the
/// budget.
pub struct Chosen {
    pub passages: Seq<(int, Passage)>,
    pub left: nat,
}

/// As much of a chunk as the budget still allows.
pub open spec fn cut_passage(note: Seq<Entry>, at: int, position: int, left: nat) -> Passage {
    let entry = note[position];
    let used = if entry.text.len() <= left {
        entry.text.len()
    } else {
        left
    };
    Passage {
        chunk_id: entry.id,
        heading: entry.heading,
        text: entry.text.take(used as int),
        truncated: used < entry.text.len(),
        anchor: position == at,
    }
}

/// The chunks at these positions, one after the other, until the budget is spent.
pub open spec fn spend(note: Seq<Entry>, at: int, order: Seq<int>, budget: nat) -> Chosen
    decreases order.len(),
{
    if order.len() == 0 {
        Chosen { passages: Seq::empty(), left: budget }
    } else {
        let before = spend(note, at, order.drop_last(), budget);
        if before.left == 0 {
            before
        } else {
            let passage = cut_passage(note, at, order.last(), before.left);
            Chosen {
                passages: before.passages.push((order.last(), passage)),
                left: (before.left - passage.text.len()) as nat,
            }
        }
    }
}

/// The order of chosen passages: by position.
pub open spec fn position_order() -> spec_fn((int, Passage), (int, Passage)) -> bool {
    |a: (int, Passage), b: (int, Passage)| a.0 < b.0
}

/// The budget that a request has: at least one character, and at most the limit.
pub open spec fn budget_of(max_chars: nat) -> nat {
    if max_chars < 1 {
        1
    } else if max_chars > MAX_PASSAGE_CHARS {
        MAX_PASSAGE_CHARS as nat
    } else {
        max_chars
    }
}

/// How many neighbours on each side a request may reach.
pub open spec fn reach_of(neighbors: nat) -> nat {
    if neighbors > MAX_NEIGHBORS {
        MAX_NEIGHBORS as nat
    } else {
        neighbors
    }
}

/// The passage at a position and its neighbours, in document order.
pub open spec fn expanded(note: Seq<Entry>, at: int, neighbors: nat, max_chars: nat) -> Seq<
    (int, Passage),
> {
    sort_by(
        spend(
            note,
            at,
            positions(note, at, reach_of(neighbors)),
            budget_of(max_chars),
        ).passages,
        position_order(),
    )
}

/// The first position of the chunk with this identifier, if there is one.
pub open spec fn anchor_in(note: Seq<Entry>, chunk_id: Seq<char>) -> Option<int>
    decreases note.len(),
{
    if note.len() == 0 {
        None
    } else {
        match anchor_in(note.drop_last(), chunk_id) {
            Some(at) => Some(at),
            None => if note.last().id == chunk_id {
                Some(note.len() - 1)
            } else {
                None
            },
        }
    }
}

/// The answer to a request: the passages, or why there are none.
pub open spec fn passage_answer(
    all: Seq<Entry>,
    path: Seq<char>,
    chunk_id: Seq<char>,
    expected_hash: Seq<char>,
    neighbors: nat,
    max_chars: nat,
) -> Result<Seq<Passage>, Fault> {
    let note = note_chunks(all, path);
    match anchor_in(note, chunk_id) {
        None => Err(
            Fault::Config(
                "passage anchor not found for this exact path; rerun semantic_search"@,
            ),
        ),
        Some(at) => if digest_text(encode_utf8(note[at].text)) != expected_hash {
            Err(Fault::Config("passage anchor changed since search; rerun semantic_search"@))
        } else {
            Ok(
                expanded(note, at, neighbors, max_chars).map_values(
                    |p: (int, Passage)| p.1,
                ),
            )
        },
    }
}

// ---------------------------------------------------------------------------
// At run time
// ---------------------------------------------------------------------------

/// The chunk of a note at a position.
pub open spec fn note_of(chunks: Seq<EmbeddingChunk>, places: Seq<usize>) -> Seq<Entry> {
    places.map_values(|p: usize| chunks[p as int]@)
}

/// The first position of the chunk with this identifier.
fn find_anchor(chunks: &Vec<EmbeddingChunk>, places: &Vec<usize>, chunk_id: &str) -> (r: Option<
    usize,
>)
    requires
        forall|k: int| 0 <= k < places.len() ==> #[trigger] places@[k] < chunks.len(),
    ensures
        match r {
            Some(at) => at < places.len() && anchor_in(
                note_of(chunks@, places@),
                chunk_id@,
            ) == Some(at as int),
            None => anchor_in(note_of(chunks@, places@), chunk_id@) is None,
        },
{
    let ghost note = note_of(chunks@, places@);
    let mut found: Option<usize> = None;
    let mut i: usize = 0;
    while i < places.len()
        invariant
            i <= places.len(),
            note == note_of(chunks@, places@),
            forall|k: int| 0 <= k < places.len() ==> #[trigger] places@[k] < chunks.len(),
            match found {
                Some(at) => at < i && anchor_in(note.take(i as int), chunk_id@) == Some(
                    at as int,
                ),
                None => anchor_in(note.take(i as int), chunk_id@) is None,
            },
        decreases places.len() - i,
    {
        assert(note.take(i + 1).drop_last() =~= note.take(i as int));
        assert(note[i as int] == chunks@[places@[i as int] as int]@);
        if found.is_none() && same(chunks[places[i]].id.as_str(), chunk_id) {
            found = Some(i);
        }
        i = i + 1;
    }
    assert(note.take(i as int) =~= note);
    found
}

/// Whether the chunk at a position lies in the same top-level section.
fn same_section(
    chunks: &Vec<EmbeddingChunk>,
    places: &Vec<usize>,
    at: usize,
    position: usize,
) -> (r: bool)
    requires
        forall|k: int| 0 <= k < places.len() ==> #[trigger] places@[k] < chunks.len(),
        at < places.len(),
        position < places.len(),
    ensures
        r == is_neighbor(note_of(chunks@, places@), at as int, position as int),
{
    let here = root_heading(&chunks[places[at]].heading);
    let there = root_heading(&chunks[places[position]].heading);
    let ghost note = note_of(chunks@, places@);
    assert(note[at as int] == chunks@[places@[at as int] as int]@);
    assert(note[position as int] == chunks@[places@[position as int] as int]@);
    match (&here, &there) {
        (Some(x), Some(y)) => same(x.as_str(), y.as_str()),
        (None, None) => true,
        _ => false,
    }
}

/// The positions of a passage and of its neighbours, the nearer ones first.
fn reach_positions(
    chunks: &Vec<EmbeddingChunk>,
    places: &Vec<usize>,
    at: usize,
    neighbors: usize,
) -> (out: Vec<usize>)
    requires
        forall|k: int| 0 <= k < places.len() ==> #[trigger] places@[k] < chunks.len(),
        at < places.len(),
        neighbors <= MAX_NEIGHBORS,
    ensures
        out@.map_values(|p: usize| p as int) == positions(
            note_of(chunks@, places@),
            at as int,
            neighbors as nat,
        ),
        forall|k: int| 0 <= k < out.len() ==> #[trigger] out@[k] < places.len(),
{
    let ghost note = note_of(chunks@, places@);
    let mut out: Vec<usize> = Vec::new();
    out.push(at);
    let mut step: usize = 0;
    assert(out@.map_values(|p: usize| p as int) =~= positions(note, at as int, 0));
    while step < neighbors
        invariant
            forall|k: int| 0 <= k < places.len() ==> #[trigger] places@[k] < chunks.len(),
            at < places.len(),
            step <= neighbors <= MAX_NEIGHBORS,
            note == note_of(chunks@, places@),
            out@.map_values(|p: usize| p as int) == positions(note, at as int, step as nat),
            forall|k: int| 0 <= k < out.len() ==> #[trigger] out@[k] < places.len(),
        decreases neighbors - step,
    {
        step = step + 1;
        let ghost before = out@.map_values(|p: usize| p as int);
        if at >= step && same_section(chunks, places, at, at - step) {
            out.push((at - step) as usize);
        }
        if places.len() - at > step && same_section(chunks, places, at, at + step) {
            out.push(at + step);
        }
        assert(out@.map_values(|p: usize| p as int) =~= before + at_distance(
            note,
            at as int,
            step as int,
        ));
    }
    out
}

/// The model of chosen passages with their positions.
pub open spec fn placed(v: Seq<(usize, IndexedPassage)>) -> Seq<(int, Passage)> {
    v.map_values(|p: (usize, IndexedPassage)| (p.0 as int, p.1@))
}

/// Puts a passage where it belongs.
fn insert_passage(out: &mut Vec<(usize, IndexedPassage)>, position: usize, passage: IndexedPassage)
    ensures
        placed(final(out)@) == insert_by(
            placed(old(out)@),
            (position as int, passage@),
            position_order(),
        ),
{
    let ghost before = placed(out@);
    let ghost item = (position as int, passage@);
    let mut k: usize = out.len();
    while k > 0 && position < out[k - 1].0
        invariant
            k <= out.len(),
            before == placed(out@),
            item.0 == position,
            forall|j: int| k <= j < before.len() ==> position_order()(item, #[trigger] before[j]),
        decreases k,
    {
        assert(before[k - 1] == (out@[k - 1].0 as int, out@[k - 1].1@));
        k = k - 1;
    }
    assert(k > 0 ==> before[k - 1] == (out@[k - 1].0 as int, out@[k - 1].1@));
    proof {
        lemma_insert_at(before, item, position_order(), k as int);
    }
    out.insert(k, (position, passage));
    assert(placed(out@) =~= before.insert(k as int, item));
}

/// The chunks at these positions until the budget is spent, in document order.
fn choose_passages(
    chunks: &Vec<EmbeddingChunk>,
    places: &Vec<usize>,
    at: usize,
    order: &Vec<usize>,
    budget: usize,
) -> (out: Vec<(usize, IndexedPassage)>)
    requires
        forall|k: int| 0 <= k < places.len() ==> #[trigger] places@[k] < chunks.len(),
        forall|k: int| 0 <= k < order.len() ==> #[trigger] order@[k] < places.len(),
    ensures
        placed(out@) == sort_by(
            spend(
                note_of(chunks@, places@),
                at as int,
                order@.map_values(|p: usize| p as int),
                budget as nat,
            ).passages,
            position_order(),
        ),
{
    let ghost note = note_of(chunks@, places@);
    let ghost all = order@.map_values(|p: usize| p as int);
    let mut out: Vec<(usize, IndexedPassage)> = Vec::new();
    let mut left: usize = budget;
    let mut i: usize = 0;
    assert(placed(out@) =~= sort_by(
        spend(note, at as int, all.take(0), budget as nat).passages,
        position_order(),
    ));
    while i < order.len()
        invariant
            forall|k: int| 0 <= k < places.len() ==> #[trigger] places@[k] < chunks.len(),
            forall|k: int| 0 <= k < order.len() ==> #[trigger] order@[k] < places.len(),
            i <= order.len(),
            note == note_of(chunks@, places@),
            all == order@.map_values(|p: usize| p as int),
            left == spend(note, at as int, all.take(i as int), budget as nat).left,
            placed(out@) == sort_by(
                spend(note, at as int, all.take(i as int), budget as nat).passages,
                position_order(),
            ),
        decreases order.len() - i,
    {
        let ghost before = spend(note, at as int, all.take(i as int), budget as nat);
        assert(all.take(i + 1).drop_last() =~= all.take(i as int));
        if left > 0 {
            let position: usize = order[i];
            let chunk = &chunks[places[position]];
            assert(note[position as int] == chunk@);
            let chars = chars_of(chunk.text.as_str());
            let used: usize = if chars.len() <= left {
                chars.len()
            } else {
                left
            };
            let text = slice_text(&chars, 0, used);
            assert(text@ =~= chunk.text@.take(used as int));
            let passage = IndexedPassage {
                chunk_id: chunk.id.clone(),
                heading: copy_opt(&chunk.heading),
                text,
                truncated: used < chars.len(),
                anchor: position == at,
            };
            assert(passage@ == cut_passage(note, at as int, position as int, left as nat));
            proof {
                let after = spend(note, at as int, all.take(i + 1), budget as nat);
                assert(after.passages.drop_last() =~= before.passages);
            }
            left = left - used;
            insert_passage(&mut out, position, passage);
        }
        i = i + 1;
    }
    assert(all.take(i as int) =~= all);
    out
}

/// Reopens a passage of the index with its neighbours of the same top-level
/// section. The passage must be the one that was found: the same note, the same
/// identifier and the same text.
pub fn expand_passage(
    index: &StoredIndex,
    path: &str,
    chunk_id: &str,
    expected_hash: &str,
    neighbors: usize,
    max_chars: usize,
    stale: bool,
) -> (r: Result<PassageRead, Error>)
    ensures
        match r {
            Ok(read) => {
                &&& passage_answer(
                    entries(index.chunks@),
                    path@,
                    chunk_id@,
                    expected_hash@,
                    neighbors as nat,
                    max_chars as nat,
                ) == Ok::<Seq<Passage>, Fault>(passages(read.chunks@))
                &&& read.path@ == path@
                &&& read.anchor_id@ == chunk_id@
                &&& read.anchor_hash@ == expected_hash@
                &&& read.built_at@ == index.built_at@
                &&& read.index_stale == stale
            },
            Err(error) => passage_answer(
                entries(index.chunks@),
                path@,
                chunk_id@,
                expected_hash@,
                neighbors as nat,
                max_chars as nat,
            ) == Err::<Seq<Passage>, Fault>(error@),
        },
{
    let places = note_positions(&index.chunks, path);
    let ghost note = note_of(index.chunks@, places@);
    assert(note == note_chunks(entries(index.chunks@), path@));
    let at: usize = match find_anchor(&index.chunks, &places, chunk_id) {
        Some(at) => at,
        None => {
            return Err(
                Error::Config(
                    copy("passage anchor not found for this exact path; rerun semantic_search"),
                ),
            );
        },
    };
    let anchor = &index.chunks[places[at]];
    assert(note[at as int] == anchor@);
    let actual = hex_hash(anchor.text.as_str().as_bytes());
    if !same(actual.as_str(), expected_hash) {
        return Err(
            Error::Config(copy("passage anchor changed since search; rerun semantic_search")),
        );
    }
    let reach: usize = if neighbors > MAX_NEIGHBORS {
        MAX_NEIGHBORS
    } else {
        neighbors
    };
    let budget: usize = if max_chars < 1 {
        1
    } else if max_chars > MAX_PASSAGE_CHARS {
        MAX_PASSAGE_CHARS
    } else {
        max_chars
    };
    let order = reach_positions(&index.chunks, &places, at, reach);
    let mut chosen = choose_passages(&index.chunks, &places, at, &order, budget);
    let ghost model = placed(chosen@);
    assert(model == expanded(note, at as int, neighbors as nat, max_chars as nat));
    let mut chunks: Vec<IndexedPassage> = Vec::new();
    while chosen.len() > 0
        invariant
            placed(chosen@).len() + chunks@.len() == model.len(),
            placed(chosen@) == model.take(chosen@.len() as int),
            forall|k: int|
                0 <= k < chunks@.len() ==> #[trigger] chunks@[k]@ == model[k
                    + chosen@.len() as int].1,
        decreases chosen.len(),
    {
        let ghost before = chosen@;
        match chosen.pop() {
            Some((position, passage)) => {
                assert(placed(before)[before.len() - 1].1 == passage@);
                assert(model[before.len() - 1].1 == passage@);
                assert(placed(chosen@) =~= model.take(chosen@.len() as int));
                let ghost older = chunks@;
                chunks.insert(0, passage);
                assert forall|k: int| 0 <= k < chunks@.len() implies #[trigger] chunks@[k]@
                    == model[k + chosen@.len() as int].1 by {
                    if k > 0 {
                        assert(chunks@[k] == older[k - 1]);
                    }
                }
            },
            None => {},
        }
    }
    assert(passages(chunks@) =~= model.map_values(|p: (int, Passage)| p.1));
    Ok(
        PassageRead {
            path: copy(path),
            anchor_id: copy(chunk_id),
            anchor_hash: actual,
            built_at: index.built_at.clone(),
            index_stale: stale,
            chunks,
        },
    )
}


// ---------------------------------------------------------------------------
// Laws
// ---------------------------------------------------------------------------

/// The characters of all passages together.
pub open spec fn total_chars(all: Seq<(int, Passage)>) -> nat
    decreases all.len(),
{
    if all.len() == 0 {
        0
    } else {
        total_chars(all.drop_last()) + all.last().1.text.len()
    }
}

proof fn lemma_total_insert(s: Seq<(int, Passage)>, x: (int, Passage))
    ensures
        total_chars(insert_by(s, x, position_order())) == total_chars(s) + x.1.text.len(),
    decreases s.len(),
{
    let lt = position_order();
    if s.len() == 0 || !lt(x, s.last()) {
        assert(s.push(x).drop_last() =~= s);
    } else {
        lemma_total_insert(s.drop_last(), x);
        let inner = insert_by(s.drop_last(), x, lt);
        assert(inner.push(s.last()).drop_last() =~= inner);
    }
}

proof fn lemma_total_sort(s: Seq<(int, Passage)>)
    ensures
        total_chars(sort_by(s, position_order())) == total_chars(s),
    decreases s.len(),
{
    if s.len() > 0 {
        lemma_total_sort(s.drop_last());
        lemma_total_insert(sort_by(s.drop_last(), position_order()), s.last());
    }
}

proof fn lemma_spend_total(note: Seq<Entry>, at: int, order: Seq<int>, budget: nat)
    ensures
        total_chars(spend(note, at, order, budget).passages) + spend(note, at, order, budget).left
            == budget,
    decreases order.len(),
{
    if order.len() > 0 {
        lemma_spend_total(note, at, order.drop_last(), budget);
        let before = spend(note, at, order.drop_last(), budget);
        let after = spend(note, at, order, budget);
        if before.left > 0 {
            assert(after.passages.drop_last() =~= before.passages);
        }
    }
}

/// The passages of an answer take no more characters than the budget allows, and
/// so never more than the limit.
pub proof fn lemma_passages_within_budget(
    note: Seq<Entry>,
    at: int,
    neighbors: nat,
    max_chars: nat,
)
    ensures
        total_chars(expanded(note, at, neighbors, max_chars)) <= budget_of(max_chars),
        budget_of(max_chars) <= MAX_PASSAGE_CHARS,
{
    let order = positions(note, at, reach_of(neighbors));
    lemma_spend_total(note, at, order, budget_of(max_chars));
    lemma_total_sort(spend(note, at, order, budget_of(max_chars)).passages);
}

proof fn lemma_spend_front(note: Seq<Entry>, at: int, order: Seq<int>, budget: nat)
    requires
        order.len() > 0,
        budget > 0,
    ensures
        spend(note, at, order, budget).passages.len() > 0,
        spend(note, at, order, budget).passages[0] == (
            order[0],
            cut_passage(note, at, order[0], budget),
        ),
    decreases order.len(),
{
    if order.len() == 1 {
        let before = spend(note, at, order.drop_last(), budget);
        assert(before.passages.len() == 0);
    } else {
        lemma_spend_front(note, at, order.drop_last(), budget);
    }
}

proof fn lemma_positions_front(note: Seq<Entry>, at: int, neighbors: nat)
    ensures
        positions(note, at, neighbors).len() > 0,
        positions(note, at, neighbors)[0] == at,
    decreases neighbors,
{
    if neighbors > 0 {
        lemma_positions_front(note, at, (neighbors - 1) as nat);
    }
}

/// The passage that was asked for is in the answer, and the budget is spent on it
/// first: as much of its text as the whole budget allows.
pub proof fn lemma_anchor_comes_first(note: Seq<Entry>, at: int, neighbors: nat, max_chars: nat)
    ensures
        expanded(note, at, neighbors, max_chars).contains(
            (at, cut_passage(note, at, at, budget_of(max_chars))),
        ),
{
    broadcast use vstd::seq_lib::group_to_multiset_ensures;

    let order = positions(note, at, reach_of(neighbors));
    lemma_positions_front(note, at, reach_of(neighbors));
    lemma_spend_front(note, at, order, budget_of(max_chars));
    let chosen = spend(note, at, order, budget_of(max_chars)).passages;
    lemma_sort_permutes(chosen, position_order());
    assert(chosen.contains(chosen[0]));
    assert(chosen.to_multiset().count(chosen[0]) > 0);
}

/// The passages of an answer come in document order.
pub proof fn lemma_passages_in_document_order(
    note: Seq<Entry>,
    at: int,
    neighbors: nat,
    max_chars: nat,
)
    ensures
        in_order(expanded(note, at, neighbors, max_chars), position_order()),
{
    assert(is_order(position_order()));
    lemma_sort_in_order(
        spend(
            note,
            at,
            positions(note, at, reach_of(neighbors)),
            budget_of(max_chars),
        ).passages,
        position_order(),
    );
}

proof fn lemma_positions_are_neighbors(note: Seq<Entry>, at: int, neighbors: nat)
    requires
        0 <= at < note.len(),
    ensures
        forall|k: int|
            0 <= k < positions(note, at, neighbors).len() ==> is_neighbor(
                note,
                at,
                #[trigger] positions(note, at, neighbors)[k],
            ) && -neighbors <= positions(note, at, neighbors)[k] - at <= neighbors,
    decreases neighbors,
{
    if neighbors > 0 {
        lemma_positions_are_neighbors(note, at, (neighbors - 1) as nat);
        let before = positions(note, at, (neighbors - 1) as nat);
        let all = positions(note, at, neighbors);
        assert forall|k: int| 0 <= k < all.len() implies is_neighbor(note, at, #[trigger] all[k])
            && -neighbors <= all[k] - at <= neighbors by {
            if k < before.len() {
                assert(all[k] == before[k]);
            }
        }
    }
}

proof fn lemma_spend_members(note: Seq<Entry>, at: int, order: Seq<int>, budget: nat)
    ensures
        forall|k: int|
            0 <= k < spend(note, at, order, budget).passages.len() ==> order.contains(
                (#[trigger] spend(note, at, order, budget).passages[k]).0,
            ),
    decreases order.len(),
{
    if order.len() > 0 {
        let before = spend(note, at, order.drop_last(), budget);
        let after = spend(note, at, order, budget);
        lemma_spend_members(note, at, order.drop_last(), budget);
        assert forall|k: int| 0 <= k < after.passages.len() implies order.contains(
            (#[trigger] after.passages[k]).0,
        ) by {
            if k < before.passages.len() {
                assert(after.passages[k] == before.passages[k]);
                let i = order.drop_last().index_of(before.passages[k].0);
                assert(order[i] == before.passages[k].0);
            } else {
                assert(order[order.len() - 1] == after.passages[k].0);
            }
        }
    }
}

/// Every passage of an answer lies in the top-level section of the one that was
/// asked for, and at most three chunks away from it.
pub proof fn lemma_passages_share_section(
    note: Seq<Entry>,
    at: int,
    neighbors: nat,
    max_chars: nat,
)
    requires
        0 <= at < note.len(),
    ensures
        forall|k: int|
            0 <= k < expanded(note, at, neighbors, max_chars).len() ==> {
                let position = (#[trigger] expanded(note, at, neighbors, max_chars)[k]).0;
                is_neighbor(note, at, position) && -MAX_NEIGHBORS <= position - at
                    <= MAX_NEIGHBORS
            },
{
    broadcast use vstd::seq_lib::group_to_multiset_ensures;

    let order = positions(note, at, reach_of(neighbors));
    let chosen = spend(note, at, order, budget_of(max_chars)).passages;
    let all = expanded(note, at, neighbors, max_chars);
    lemma_positions_are_neighbors(note, at, reach_of(neighbors));
    lemma_spend_members(note, at, order, budget_of(max_chars));
    lemma_sort_permutes(chosen, position_order());
    assert forall|k: int| 0 <= k < all.len() implies {
        let position = (#[trigger] all[k]).0;
        is_neighbor(note, at, position) && -MAX_NEIGHBORS <= position - at <= MAX_NEIGHBORS
    } by {
        assert(all.contains(all[k]));
        assert(all.to_multiset().count(all[k]) > 0);
        assert(chosen.contains(all[k]));
        let i = chosen.index_of(all[k]);
        assert(order.contains(chosen[i].0));
        let j = order.index_of(chosen[i].0);
        assert(is_neighbor(note, at, order[j]));
    }
}

} // verus!
