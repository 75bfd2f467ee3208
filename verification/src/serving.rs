//! When an index can be served, what it may show, and when it is refreshed.
use crate::cache::{above, cache_place, candidates, root_from, root_of_project};
use crate::engine::{candidate_positions, document_paths, passage_gate, visible_paths};
use crate::error::Fault;
use crate::hashing::{digest_text, hex, lemma_hex_len, path_id, sha256, slug};
use crate::index::{
    holds_excluded, in_subtree, is_document, is_excluded, is_hidden_name, is_source_excluded,
    manifest, mismatch, stamp_of, stamp_order, EmbeddingChunk, Mismatch, StoredIndex,
    CHUNKER_VERSION, INDEX_SCHEMA_VERSION,
};
use crate::ordering::lemma_sorting_is_stable;
use crate::pathing::lemma_written_parts_read_back;
use crate::paths::{joined_path, lies_under, parts, relative_to, Part};
use crate::refresh::{
    built_moment, is_refresh_due, nanos_between, refresh_decision, rfc3339_moment, Moment,
    RefreshInputs,
};
use crate::scan::{opt_millis, ScannedNote};
use vstd::prelude::*;
use vstd::utf8::encode_utf8;

verus! {

// ---------------------------------------------------------------------------
// Which index is served
// ---------------------------------------------------------------------------

/// An index is served where it was made by these rules, for this model, this vault and this
/// policy for attachments; and where it differs in one of these things alone, that is what is
/// told.
pub proof fn lemma_an_index_is_served_as_it_was_made(
    index: StoredIndex,
    model: Seq<char>,
    vault_path: Seq<char>,
    documents: bool,
    max_bytes: u64,
)
    ensures
        ({
            let told = mismatch(index, model, vault_path, documents, max_bytes);
            let schema = index.schema_version == INDEX_SCHEMA_VERSION;
            let chunker = index.chunker_version@ == CHUNKER_VERSION@;
            let same_model = index.model@ == model;
            let vault = index.vault_path@ == vault_path;
            let policy = index.document_indexing_enabled == documents && index.document_max_bytes
                == max_bytes;
            &&& told is None <==> schema && chunker && same_model && vault && policy
            &&& !schema ==> told == Some(Mismatch::Schema)
            &&& schema && !chunker ==> told == Some(Mismatch::Chunker)
            &&& schema && chunker && !same_model ==> told == Some(Mismatch::Model)
            &&& schema && chunker && same_model && !vault ==> told == Some(Mismatch::VaultPath)
            &&& schema && chunker && same_model && vault && !policy ==> told == Some(
                Mismatch::DocumentPolicy,
            )
        }),
{
}

// ---------------------------------------------------------------------------
// What is left out
// ---------------------------------------------------------------------------

/// A source is left out where its path runs through one of four directories, at any depth, or
/// where its first parts are those of one of the excluded subtrees; and in no other case.
pub proof fn lemma_sources_are_left_out_by_their_path(path: Seq<char>, subtrees: Seq<Seq<char>>)
    ensures
        is_source_excluded(path, subtrees) <==> {
            ||| parts(path).contains(Part::Normal(".trash"@))
            ||| parts(path).contains(Part::Normal(".obsidian"@))
            ||| parts(path).contains(Part::Normal(".git"@))
            ||| parts(path).contains(Part::Normal("node_modules"@))
            ||| exists|tree: Seq<char>| #[trigger]
                subtrees.contains(tree) && parts(tree).len() <= parts(path).len() && parts(
                    path,
                ).take(parts(tree).len() as int) == parts(tree)
        },
        is_excluded(path) <==> is_source_excluded(path, Seq::empty()),
{
    let all = parts(path);
    if is_excluded(path) {
        let i = choose|i: int|
            0 <= i < all.len() && (#[trigger] all[i] matches Part::Normal(name) && is_hidden_name(
                name,
            ));
        assert(all.contains(all[i]));
    }
    assert forall|name: Seq<char>|
        is_hidden_name(name) && #[trigger] all.contains(Part::Normal(name)) implies is_excluded(
        path,
    ) by {
        let i = all.index_of(Part::Normal(name));
        assert(all[i] == Part::Normal(name));
    }
    assert(is_hidden_name(".trash"@) && is_hidden_name(".obsidian"@) && is_hidden_name(".git"@)
        && is_hidden_name("node_modules"@));
    if in_subtree(path, subtrees) {
        let i = choose|i: int|
            0 <= i < subtrees.len() && lies_under(parts(path), parts(#[trigger] subtrees[i]));
        assert(subtrees.contains(subtrees[i]));
    }
    if exists|tree: Seq<char>| #[trigger]
        subtrees.contains(tree) && parts(tree).len() <= parts(path).len() && parts(path).take(
            parts(tree).len() as int,
        ) == parts(tree) {
        let tree = choose|tree: Seq<char>| #[trigger]
            subtrees.contains(tree) && parts(tree).len() <= parts(path).len() && parts(path).take(
                parts(tree).len() as int,
            ) == parts(tree);
        let i = subtrees.index_of(tree);
        assert(lies_under(parts(path), parts(subtrees[i])));
    }
}

/// An index holds what is left out where one of its chunks or one of its records of
/// attachments does.
pub proof fn lemma_excluded_sources_are_noticed(index: StoredIndex, subtrees: Seq<Seq<char>>, i: int)
    ensures
        0 <= i < index.chunks@.len() && is_source_excluded(index.chunks@[i].path@, subtrees)
            ==> holds_excluded(index, subtrees),
        0 <= i < index.document_manifest@.len() && is_source_excluded(
            index.document_manifest@[i].path@,
            subtrees,
        ) ==> holds_excluded(index, subtrees),
        (forall|k: int|
            0 <= k < index.chunks@.len() ==> !is_source_excluded(
                #[trigger] index.chunks@[k].path@,
                subtrees,
            )) && (forall|k: int|
            0 <= k < index.document_manifest@.len() ==> !is_source_excluded(
                #[trigger] index.document_manifest@[k].path@,
                subtrees,
            )) ==> !holds_excluded(index, subtrees),
{
}

/// A search may return every chunk whose source is not left out, in the order of the index.
pub proof fn lemma_every_visible_chunk_is_a_candidate(
    chunks: Seq<EmbeddingChunk>,
    subtrees: Seq<Seq<char>>,
)
    ensures
        ({
            let found = candidate_positions(chunks, subtrees);
            &&& forall|a: int, b: int| 0 <= a < b < found.len() ==> found[a] < found[b]
            &&& forall|p: int| #[trigger]
                found.contains(p) <==> 0 <= p < chunks.len() && !is_source_excluded(
                    chunks[p].path@,
                    subtrees,
                )
        }),
    decreases chunks.len(),
{
    if chunks.len() > 0 {
        let front = chunks.drop_last();
        let before = candidate_positions(front, subtrees);
        let found = candidate_positions(chunks, subtrees);
        lemma_every_visible_chunk_is_a_candidate(front, subtrees);
        assert forall|p: int| #[trigger]
            found.contains(p) <==> 0 <= p < chunks.len() && !is_source_excluded(
                chunks[p].path@,
                subtrees,
            ) by {
            if found.contains(p) {
                let k = found.index_of(p);
                if k < before.len() {
                    assert(before[k] == p);
                    assert(before.contains(p));
                    assert(front[p] == chunks[p]);
                }
            }
            if 0 <= p < front.len() && !is_source_excluded(chunks[p].path@, subtrees) {
                assert(front[p] == chunks[p]);
                assert(before.contains(p));
                assert(found[before.index_of(p)] == p);
            }
            if p == chunks.len() - 1 && !is_source_excluded(chunks[p].path@, subtrees) {
                assert(found[before.len() as int] == p);
            }
        }
        assert forall|a: int, b: int| 0 <= a < b < found.len() implies found[a] < found[b] by {
            assert(found[a] == before[a]);
            assert(before.contains(before[a]));
            if b < before.len() {
                assert(found[b] == before[b]);
            }
        }
    }
}

/// The paths that are counted are all those that are not left out, and the attachments among
/// paths are all those that lead to a PDF or a Word document, each as often as it occurs.
pub proof fn lemma_every_visible_path_counts(
    paths: Seq<Seq<char>>,
    subtrees: Seq<Seq<char>>,
    path: Seq<char>,
)
    ensures
        visible_paths(paths, subtrees).to_multiset().count(path) == if is_source_excluded(
            path,
            subtrees,
        ) {
            0
        } else {
            paths.to_multiset().count(path)
        },
        document_paths(paths).to_multiset().count(path) == if is_document(path) {
            paths.to_multiset().count(path)
        } else {
            0
        },
    decreases paths.len(),
{
    broadcast use vstd::seq_lib::group_to_multiset_ensures;

    if paths.len() > 0 {
        let front = paths.drop_last();
        lemma_every_visible_path_counts(front, subtrees, path);
        assert(paths =~= front.push(paths.last()));
    }
}

/// The records of attachments are those of the documents that were found, one for each, in
/// the order of their paths: its path from the vault, its size and its time.
pub proof fn lemma_every_document_has_its_record(
    vault_path: Seq<char>,
    documents: Seq<ScannedNote>,
) -> (places: Seq<int>)
    ensures
        places.len() == documents.len(),
        places.no_duplicates(),
        manifest(vault_path, documents).len() == documents.len(),
        forall|k: int|
            0 <= k < places.len() ==> {
                let record = manifest(vault_path, documents)[k];
                let document = documents[places[k]];
                &&& 0 <= #[trigger] places[k] < documents.len()
                &&& record.path == relative_to(document.path@, vault_path)
                &&& record.size_bytes == document.size_bytes
                &&& record.modified_millis == opt_millis(document.modified)
            },
{
    let all = documents.map_values(|d: ScannedNote| stamp_of(vault_path, d));
    let places = lemma_sorting_is_stable(all, stamp_order());
    places
}

/// A passage is not read where the index is of no use, where there is none, where its path may
/// not be read and where its source is left out; the first of these is told.
pub proof fn lemma_passages_are_gated(
    index: Option<StoredIndex>,
    incompatible: bool,
    resolved: Result<Seq<char>, Fault>,
    path: Seq<char>,
    subtrees: Seq<Seq<char>>,
)
    ensures
        ({
            let told = passage_gate(index, incompatible, resolved, path, subtrees);
            &&& told is None <==> !incompatible && index is Some && resolved is Ok
                && !is_source_excluded(path, subtrees)
            &&& incompatible ==> told == Some(
                Fault::Config("embedding index is incompatible; run reindex_embeddings"@),
            )
            &&& !incompatible && index is None ==> told == Some(
                Fault::Config(
                    "no embedding index exists; run reindex_embeddings before read_passage"@,
                ),
            )
            &&& !incompatible && index is Some ==> (resolved matches Err(fault) ==> told == Some(
                fault,
            ))
            &&& !incompatible && index is Some && resolved is Ok && is_source_excluded(
                path,
                subtrees,
            ) ==> told == Some(Fault::Config("passage path is excluded by vault policy"@))
        }),
{
}

// ---------------------------------------------------------------------------
// When it is refreshed
// ---------------------------------------------------------------------------

/// The time between two moments is the difference of their times, leap seconds aside, and the
/// way back takes as long as the way there.
pub proof fn lemma_time_passes_evenly(a: Moment, b: Moment)
    ensures
        a.nanos < 1_000_000_000 && b.nanos < 1_000_000_000 ==> nanos_between(a, b) == (b.secs
            * 1_000_000_000 + b.nanos) - (a.secs * 1_000_000_000 + a.nanos),
        nanos_between(a, b) == -nanos_between(b, a),
        nanos_between(a, a) == 0,
{
}

/// An index is refreshed for its age where it is outdated, refreshing is switched on, and at
/// least the threshold has passed since it was built or nobody knows when that was.
pub proof fn lemma_an_index_is_due_by_its_age(
    stale: bool,
    built_at: Option<Seq<char>>,
    threshold: u64,
    now: Moment,
)
    ensures
        ({
            let due = is_refresh_due(stale, built_moment(built_at), threshold, now);
            &&& !stale || threshold == 0 ==> !due
            &&& stale && threshold > 0 && built_at is None ==> due
            &&& stale && threshold > 0 && built_at is Some ==> match rfc3339_moment(built_at->0) {
                None => due,
                Some((secs, nanos)) => nanos < 1_000_000_000 && now.nanos < 1_000_000_000 ==> (due
                    <==> (now.secs * 1_000_000_000 + now.nanos) - (secs * 1_000_000_000 + nanos)
                    >= threshold * 1_000_000_000),
            }
        }),
{
}

/// Before a search an index is refreshed exactly where no build runs, refreshing is switched
/// on, there is an index, it holds what is left out or misses what changed or is due, the last
/// try is five minutes ago or there was none, and no other search is at it. It is marked as
/// outdated where it holds what is left out or misses what changed.
pub proof fn lemma_refreshing_needs_a_reason(inputs: RefreshInputs)
    ensures
        ({
            let step = refresh_decision(inputs);
            let on = !inputs.reindex_running && inputs.refresh_after_secs > 0;
            let wrong = inputs.excluded_present || inputs.documents_changed;
            &&& step.refresh <==> on && inputs.index_exists && (wrong || inputs.due_by_age)
                && !inputs.refresh_busy && (inputs.since_last_try is None
                || inputs.since_last_try->0 >= 300)
            &&& step.mark_stale <==> on && wrong
        }),
{
}

// ---------------------------------------------------------------------------
// Digests
// ---------------------------------------------------------------------------

/// The value of a hexadecimal digit.
pub open spec fn digit_value(c: char) -> int {
    if '0' <= c <= '9' {
        c as int - 48
    } else {
        c as int - 87
    }
}

/// Each byte is written in two hexadecimal digits, the higher one first, from which it can be
/// read again.
pub proof fn lemma_bytes_are_read_back(bytes: Seq<u8>, i: int)
    requires
        0 <= i < bytes.len(),
    ensures
        hex(bytes).len() == 2 * bytes.len(),
        ({
            let high = hex(bytes)[2 * i];
            let low = hex(bytes)[2 * i + 1];
            &&& '0' <= high <= '9' || 'a' <= high <= 'f'
            &&& '0' <= low <= '9' || 'a' <= low <= 'f'
            &&& 16 * digit_value(high) + digit_value(low) == bytes[i]
        }),
    decreases bytes.len(),
{
    lemma_hex_len(bytes);
    let front = bytes.drop_last();
    lemma_hex_len(front);
    if i < front.len() {
        lemma_bytes_are_read_back(front, i);
        assert(hex(bytes)[2 * i] == hex(front)[2 * i]);
        assert(hex(bytes)[2 * i + 1] == hex(front)[2 * i + 1]);
    } else {
        let byte = bytes[i] as int;
        assert(0 <= byte / 16 < 16 && 0 <= byte % 16 < 16);
    }
}

/// The short name of a text and that of a path are the beginning of their digest.
pub proof fn lemma_short_names_begin_the_digest(value: Seq<char>)
    requires
        sha256(encode_utf8(value)).len() == 32,
    ensures
        slug(value) == digest_text(encode_utf8(value)).take(24),
        path_id(value) == digest_text(encode_utf8(value)).take(16),
        slug(value).len() == 24,
{
    let bytes = sha256(encode_utf8(value));
    lemma_hex_of_front(bytes, 12);
    lemma_hex_len(bytes);
    lemma_hex_len(bytes.take(12));
}

proof fn lemma_hex_of_front(bytes: Seq<u8>, n: int)
    requires
        0 <= n <= bytes.len(),
    ensures
        hex(bytes.take(n)) == hex(bytes).take(2 * n),
    decreases bytes.len(),
{
    lemma_hex_len(bytes);
    if n == bytes.len() {
        assert(bytes.take(n) =~= bytes);
        assert(hex(bytes).take(2 * n) =~= hex(bytes));
    } else {
        let front = bytes.drop_last();
        lemma_hex_len(front);
        lemma_hex_of_front(front, n);
        assert(front.take(n) =~= bytes.take(n));
        assert(hex(bytes).take(2 * n) =~= hex(front).take(2 * n));
    }
}

// ---------------------------------------------------------------------------
// Projects and caches
// ---------------------------------------------------------------------------

proof fn lemma_above(path: Seq<char>, count: int, k: int)
    requires
        0 <= count <= parts(path).len(),
        0 <= k < above(path, count).len(),
    ensures
        count - 1 - k >= 0,
        above(path, count)[k] == crate::paths::written(path, 0, count - 1 - k),
    decreases count,
{
    if k > 0 {
        assert(above(path, count)[k] == above(path, count - 1)[k - 1]);
        lemma_above(path, count - 1, k - 1);
    }
}

/// The directories that may be the root of a project are the one to begin with and those above
/// it, each with one part less than the one before.
pub proof fn lemma_candidates_climb(start: Seq<char>, k: int)
    requires
        1 <= k < candidates(start).len(),
        k < parts(start).len(),
    ensures
        candidates(start)[0] == start,
        parts(candidates(start)[k]) == parts(start).take(parts(start).len() - k),
{
    let n = parts(start).len() as int;
    lemma_above(start, n, k - 1);
    assert(candidates(start)[k] == above(start, n)[k - 1]);
    lemma_written_parts_read_back(start, 0, n - k);
    assert(parts(start).subrange(0, n - k) =~= parts(start).take(n - k));
}

/// The root of a project is the nearest directory with a marker; without any it is where the
/// search began.
pub proof fn lemma_nearest_marker_wins(start: Seq<char>, marked: Seq<bool>, k: int)
    requires
        0 <= k <= marked.len(),
        forall|i: int| 0 <= i < k ==> !#[trigger] marked[i],
        k < marked.len() ==> marked[k],
    ensures
        root_of_project(start, marked) == if k < marked.len() {
            candidates(start)[k]
        } else {
            start
        },
{
    lemma_root_from(start, marked, 0, k);
}

proof fn lemma_root_from(start: Seq<char>, marked: Seq<bool>, from: int, k: int)
    requires
        0 <= from <= k <= marked.len(),
        forall|i: int| from <= i < k ==> !#[trigger] marked[i],
        k < marked.len() ==> marked[k],
    ensures
        root_from(start, marked, from) == if k < marked.len() {
            candidates(start)[k]
        } else {
            start
        },
    decreases k - from,
{
    if from < k {
        assert(!marked[from]);
        lemma_root_from(start, marked, from + 1, k);
    }
}

/// A cache directory that is set is used on any platform; without one, the directory for local
/// data counts on Windows alone, and the home directory is the last resort.
pub proof fn lemma_cache_places_have_an_order(
    on_windows: bool,
    cache_home: Option<Seq<char>>,
    local: Option<Seq<char>>,
    home: Option<Seq<char>>,
)
    ensures
        ({
            let place = cache_place(on_windows, cache_home, local, home);
            &&& cache_home matches Some(base) ==> place == Some(joined_path(base, "turbovault"@))
            &&& cache_home is None && on_windows ==> (local matches Some(base) ==> place == Some(
                joined_path(joined_path(base, "turbovault"@), "cache"@),
            ))
            &&& cache_home is None && on_windows && local is None ==> (home matches Some(base)
                ==> place == Some(joined_path(joined_path(base, ".turbovault"@), "cache"@)))
            &&& cache_home is None && !on_windows ==> (home matches Some(base) ==> place == Some(
                joined_path(joined_path(base, ".cache"@), "turbovault"@),
            ))
            &&& cache_home is None && home is None && (!on_windows || local is None) ==> place
                is None
        }),
{
}

} // verus!
