//! What the embedding engine answers from a stored index, and what it refuses.
use crate::embedding_config::EmbeddingConfig;
use crate::error::{Error, Fault};
use crate::index::{
    entries, holds_excluded, index_mismatch, is_document, is_document_path, is_source_excluded,
    mismatch, source_path_is_excluded, stored_index_has_excluded_sources, EmbeddingChunk,
    StoredIndex,
};
use crate::lines::{trim, trimmed};
use crate::manager::{answers, note_resolution, places_of, OnDisk, VaultManager};
use crate::numbers::{decimal, to_decimal};
use crate::passage::{expand_passage, passage_answer, passages, PassageRead};
use crate::reindex::{positions_model, ReindexProgress};
use crate::sorting::{lemma_insert_at, sort_by};
use crate::text::{copy, copy_opt, has_text, opt_text, texts};
use vstd::prelude::*;

verus! {

// ---------------------------------------------------------------------------
// Opening an index
// ---------------------------------------------------------------------------

/// What is known of a stored index once it was opened.
#[derive(Debug, Clone, Copy, PartialEq, Eq, Structural)]
pub struct OpenState {
    /// The vault changed since the index was built.
    pub stale: bool,
    /// The index cannot be used.
    pub incompatible: bool,
}

/// What is known of an index that was opened: outdated where it is marked so or
/// holds what is left out; not usable where its bytes could not be read or where it
/// was made otherwise.
pub fn open_state(
    marked_stale: bool,
    file_exists: bool,
    index: &Option<StoredIndex>,
    config: &EmbeddingConfig,
    vault_path: &str,
    subtrees: &Vec<String>,
) -> (r: OpenState)
    ensures
        r.stale == (marked_stale || (index matches Some(stored) && holds_excluded(
            *stored,
            texts(subtrees@),
        ))),
        r.incompatible == match index {
            Some(stored) => mismatch(
                *stored,
                config.model@,
                vault_path@,
                config.document_indexing_enabled,
                config.document_max_bytes,
            ) is Some,
            None => file_exists,
        },
{
    match index {
        Some(stored) => OpenState {
            stale: marked_stale || stored_index_has_excluded_sources(stored, subtrees),
            incompatible: index_mismatch(
                stored,
                config.model.as_str(),
                vault_path,
                config.document_indexing_enabled,
                config.document_max_bytes,
            ).is_some(),
        },
        None => OpenState { stale: marked_stale, incompatible: file_exists },
    }
}

// ---------------------------------------------------------------------------
// Status
// ---------------------------------------------------------------------------

/// What is told of the index.
#[derive(Debug)]
pub struct EmbeddingIndexStatus {
    pub configured: bool,
    pub endpoint: String,
    pub model: String,
    pub api_key_configured: bool,
    pub index_path: String,
    /// The vault changed since the index was built. It is served all the same.
    pub stale: bool,
    /// The index cannot be used.
    pub incompatible: bool,
    pub exists: bool,
    pub chunks: usize,
    pub dimensions: usize,
    pub built_at: Option<String>,
    pub schema_version: Option<u32>,
    pub chunker_version: Option<String>,
    pub document_indexing_enabled: bool,
    pub document_max_bytes: u64,
    pub document_files_discovered: usize,
    pub document_files_indexed: usize,
    pub document_chunks: usize,
    pub reindex_in_progress: bool,
    pub reindex_phase: Option<String>,
    pub reindex_processed_chunks: usize,
    pub reindex_total_chunks: usize,
    pub reindex_started_at: Option<String>,
    pub reindex_completed_at: Option<String>,
    pub reindex_error: Option<String>,
    pub reranker_endpoint: String,
    pub reranker_model: String,
    pub reranker_enabled: bool,
    pub reranker_api_key_configured: bool,
}

/// The paths of the chunks.
pub open spec fn chunk_paths(chunks: Seq<EmbeddingChunk>) -> Seq<Seq<char>> {
    chunks.map_values(|c: EmbeddingChunk| c.path@)
}

/// The paths that are not left out.
pub open spec fn visible_paths(paths: Seq<Seq<char>>, subtrees: Seq<Seq<char>>) -> Seq<Seq<char>>
    decreases paths.len(),
{
    if paths.len() == 0 {
        paths
    } else if is_source_excluded(paths.last(), subtrees) {
        visible_paths(paths.drop_last(), subtrees)
    } else {
        visible_paths(paths.drop_last(), subtrees).push(paths.last())
    }
}

/// The paths of attachments.
pub open spec fn document_paths(paths: Seq<Seq<char>>) -> Seq<Seq<char>>
    decreases paths.len(),
{
    if paths.len() == 0 {
        paths
    } else if is_document(paths.last()) {
        document_paths(paths.drop_last()).push(paths.last())
    } else {
        document_paths(paths.drop_last())
    }
}

/// What is counted in an index.
pub struct Counts {
    pub chunks: nat,
    pub document_chunks: nat,
    pub document_files_indexed: nat,
    pub document_files_discovered: nat,
}

/// What is counted in an index: what is left out does not count, and a file with
/// several chunks counts once as a file.
pub open spec fn counts_of(index: Option<StoredIndex>, subtrees: Seq<Seq<char>>) -> Counts {
    match index {
        None => Counts {
            chunks: 0,
            document_chunks: 0,
            document_files_indexed: 0,
            document_files_discovered: 0,
        },
        Some(stored) => {
            let shown = visible_paths(chunk_paths(stored.chunks@), subtrees);
            let recorded = stored.document_manifest@.map_values(
                |d: crate::index::DocumentStamp| d.path@,
            );
            Counts {
                chunks: shown.len(),
                document_chunks: document_paths(shown).len(),
                document_files_indexed: document_paths(shown).to_set().len(),
                document_files_discovered: visible_paths(recorded, subtrees).len(),
            }
        },
    }
}

/// The paths that are not left out.
fn shown_paths(paths: &Vec<String>, subtrees: &Vec<String>) -> (out: Vec<String>)
    ensures
        texts(out@) == visible_paths(texts(paths@), texts(subtrees@)),
{
    let ghost all = texts(paths@);
    let mut out: Vec<String> = Vec::new();
    let mut i: usize = 0;
    assert(texts(out@) =~= visible_paths(all.take(0), texts(subtrees@)));
    while i < paths.len()
        invariant
            i <= paths.len(),
            all == texts(paths@),
            texts(out@) == visible_paths(all.take(i as int), texts(subtrees@)),
        decreases paths.len() - i,
    {
        assert(all.take(i + 1).drop_last() =~= all.take(i as int));
        if !source_path_is_excluded(paths[i].as_str(), subtrees) {
            let ghost before = texts(out@);
            out.push(paths[i].clone());
            assert(texts(out@) =~= before.push(all[i as int]));
        }
        i = i + 1;
    }
    assert(all.take(i as int) =~= all);
    out
}

/// The paths of attachments.
fn attachment_paths(paths: &Vec<String>) -> (out: Vec<String>)
    ensures
        texts(out@) == document_paths(texts(paths@)),
{
    let ghost all = texts(paths@);
    let mut out: Vec<String> = Vec::new();
    let mut i: usize = 0;
    assert(texts(out@) =~= document_paths(all.take(0)));
    while i < paths.len()
        invariant
            i <= paths.len(),
            all == texts(paths@),
            texts(out@) == document_paths(all.take(i as int)),
        decreases paths.len() - i,
    {
        assert(all.take(i + 1).drop_last() =~= all.take(i as int));
        if is_document_path(paths[i].as_str()) {
            let ghost before = texts(out@);
            out.push(paths[i].clone());
            assert(texts(out@) =~= before.push(all[i as int]));
        }
        i = i + 1;
    }
    assert(all.take(i as int) =~= all);
    out
}

/// How many different texts there are.
fn count_distinct(paths: &Vec<String>) -> (n: usize)
    ensures
        n == texts(paths@).to_set().len(),
{
    let ghost all = texts(paths@);
    let mut seen: Vec<String> = Vec::new();
    let mut i: usize = 0;
    assert(texts(seen@) =~= Seq::<Seq<char>>::empty());
    assert(texts(seen@).to_set() =~= all.take(0).to_set());
    while i < paths.len()
        invariant
            i <= paths.len(),
            all == texts(paths@),
            texts(seen@).no_duplicates(),
            texts(seen@).to_set() == all.take(i as int).to_set(),
        decreases paths.len() - i,
    {
        let ghost before = texts(seen@);
        let ghost path = all[i as int];
        assert(all.take(i + 1) =~= all.take(i as int).push(path));
        assert(all.take(i + 1).to_set() =~= all.take(i as int).to_set().insert(path)) by {
            lemma_push_to_set(all.take(i as int), path);
        }
        if !has_text(&seen, paths[i].as_str()) {
            seen.push(paths[i].clone());
            proof {
                assert(texts(seen@) =~= before.push(path));
                lemma_push_to_set(before, path);
                assert forall|a: int, b: int|
                    0 <= a < seen.len() && 0 <= b < seen.len() && a != b implies texts(
                    seen@,
                )[a] != texts(seen@)[b] by {
                    if a < before.len() && b < before.len() {
                        assert(before[a] != before[b]);
                    } else if a < before.len() {
                        assert(before.contains(before[a]));
                    } else {
                        assert(before.contains(before[b]));
                    }
                }
            }
        } else {
            assert(all.take(i as int).to_set().contains(path)) by {
                assert(before.to_set().contains(path));
            }
            assert(all.take(i as int).to_set().insert(path) =~= all.take(i as int).to_set());
        }
        i = i + 1;
    }
    assert(all.take(i as int) =~= all);
    proof {
        texts(seen@).unique_seq_to_set();
    }
    seen.len()
}

proof fn lemma_push_to_set(s: Seq<Seq<char>>, x: Seq<char>)
    ensures
        s.push(x).to_set() == s.to_set().insert(x),
{
    let pushed = s.push(x);
    assert forall|y: Seq<char>| pushed.to_set().contains(y) == s.to_set().insert(x).contains(y) by {
        if s.contains(y) {
            let i = s.index_of(y);
            assert(pushed[i] == y);
        }
        if y == x {
            assert(pushed[s.len() as int] == y);
        }
        if pushed.contains(y) {
            let i = pushed.index_of(y);
            if i < s.len() {
                assert(s[i] == y);
            }
        }
    }
    assert(pushed.to_set() =~= s.to_set().insert(x));
}

/// The paths of the chunks.
fn paths_of_chunks(chunks: &Vec<EmbeddingChunk>) -> (out: Vec<String>)
    ensures
        texts(out@) == chunk_paths(chunks@),
{
    let mut out: Vec<String> = Vec::new();
    let mut i: usize = 0;
    while i < chunks.len()
        invariant
            i <= chunks.len(),
            out.len() == i,
            forall|k: int| 0 <= k < i ==> #[trigger] out@[k]@ == chunks@[k].path@,
        decreases chunks.len() - i,
    {
        out.push(chunks[i].path.clone());
        i = i + 1;
    }
    assert(texts(out@) =~= chunk_paths(chunks@));
    out
}

/// What is told of the index.
pub fn status(
    config: &EmbeddingConfig,
    index: &Option<StoredIndex>,
    progress: &ReindexProgress,
    index_path: &str,
    state: &OpenState,
    subtrees: &Vec<String>,
) -> (r: EmbeddingIndexStatus)
    ensures
        r.configured == (config.endpoint@.len() > 0 && config.model@.len() > 0),
        r.endpoint@ == config.endpoint@,
        r.model@ == config.model@,
        r.api_key_configured == config.api_key_configured,
        r.index_path@ == index_path@,
        r.stale == state.stale,
        r.incompatible == state.incompatible,
        r.exists == index is Some,
        ({
            let counts = counts_of(*index, texts(subtrees@));
            &&& r.chunks == counts.chunks
            &&& r.document_chunks == counts.document_chunks
            &&& r.document_files_indexed == counts.document_files_indexed
            &&& r.document_files_discovered == counts.document_files_discovered
        }),
        match index {
            Some(stored) => {
                &&& r.dimensions == stored.dimension
                &&& opt_text(r.built_at) == Some(stored.built_at@)
                &&& r.schema_version == Some(stored.schema_version)
                &&& opt_text(r.chunker_version) == Some(stored.chunker_version@)
            },
            None => {
                &&& r.dimensions == 0
                &&& r.built_at is None
                &&& r.schema_version is None
                &&& r.chunker_version is None
            },
        },
        r.document_indexing_enabled == config.document_indexing_enabled,
        r.document_max_bytes == config.document_max_bytes,
        r.reindex_in_progress == progress.in_progress,
        opt_text(r.reindex_phase) == opt_text(progress.phase),
        r.reindex_processed_chunks == progress.processed_chunks,
        r.reindex_total_chunks == progress.total_chunks,
        opt_text(r.reindex_started_at) == opt_text(progress.started_at),
        opt_text(r.reindex_completed_at) == opt_text(progress.completed_at),
        opt_text(r.reindex_error) == opt_text(progress.error),
        r.reranker_endpoint@ == config.reranker_endpoint@,
        r.reranker_model@ == config.reranker_model@,
        r.reranker_enabled == config.reranker_enabled,
        r.reranker_api_key_configured == config.reranker_api_key_configured,
{
    let mut chunks: usize = 0;
    let mut document_chunks: usize = 0;
    let mut document_files_indexed: usize = 0;
    let mut document_files_discovered: usize = 0;
    let mut dimensions: usize = 0;
    let mut built_at: Option<String> = None;
    let mut schema_version: Option<u32> = None;
    let mut chunker_version: Option<String> = None;
    match index {
        Some(stored) => {
            let all = paths_of_chunks(&stored.chunks);
            let shown = shown_paths(&all, subtrees);
            assert(texts(shown@).len() == shown.len());
            chunks = shown.len();
            let documents = attachment_paths(&shown);
            assert(texts(documents@).len() == documents.len());
            document_chunks = documents.len();
            document_files_indexed = count_distinct(&documents);
            let mut recorded: Vec<String> = Vec::new();
            let mut i: usize = 0;
            while i < stored.document_manifest.len()
                invariant
                    i <= stored.document_manifest.len(),
                    recorded.len() == i,
                    forall|k: int|
                        0 <= k < i ==> #[trigger] recorded@[k]@
                            == stored.document_manifest@[k].path@,
                decreases stored.document_manifest.len() - i,
            {
                recorded.push(stored.document_manifest[i].path.clone());
                i = i + 1;
            }
            assert(texts(recorded@) =~= stored.document_manifest@.map_values(
                |d: crate::index::DocumentStamp| d.path@,
            ));
            let discovered = shown_paths(&recorded, subtrees);
            assert(texts(discovered@).len() == discovered.len());
            document_files_discovered = discovered.len();
            dimensions = stored.dimension;
            built_at = Some(stored.built_at.clone());
            schema_version = Some(stored.schema_version);
            chunker_version = Some(stored.chunker_version.clone());
        },
        None => {},
    }
    EmbeddingIndexStatus {
        configured: !config.endpoint.as_str().is_empty() && !config.model.as_str().is_empty(),
        endpoint: config.endpoint.clone(),
        model: config.model.clone(),
        api_key_configured: config.api_key_configured,
        index_path: copy(index_path),
        stale: state.stale,
        incompatible: state.incompatible,
        exists: index.is_some(),
        chunks,
        dimensions,
        built_at,
        schema_version,
        chunker_version,
        document_indexing_enabled: config.document_indexing_enabled,
        document_max_bytes: config.document_max_bytes,
        document_files_discovered,
        document_files_indexed,
        document_chunks,
        reindex_in_progress: progress.in_progress,
        reindex_phase: copy_opt(&progress.phase),
        reindex_processed_chunks: progress.processed_chunks,
        reindex_total_chunks: progress.total_chunks,
        reindex_started_at: copy_opt(&progress.started_at),
        reindex_completed_at: copy_opt(&progress.completed_at),
        reindex_error: copy_opt(&progress.error),
        reranker_endpoint: config.reranker_endpoint.clone(),
        reranker_model: config.reranker_model.clone(),
        reranker_enabled: config.reranker_enabled,
        reranker_api_key_configured: config.reranker_api_key_configured,
    }
}

// ---------------------------------------------------------------------------
// Reading a passage
// ---------------------------------------------------------------------------

/// Why a passage is not read, before the index is looked at.
pub open spec fn passage_gate(
    index: Option<StoredIndex>,
    incompatible: bool,
    resolved: Result<Seq<char>, Fault>,
    path: Seq<char>,
    subtrees: Seq<Seq<char>>,
) -> Option<Fault> {
    if incompatible {
        Some(Fault::Config("embedding index is incompatible; run reindex_embeddings"@))
    } else if index is None {
        Some(
            Fault::Config(
                "no embedding index exists; run reindex_embeddings before read_passage"@,
            ),
        )
    } else if resolved is Err {
        Some(resolved->Err_0)
    } else if is_source_excluded(path, subtrees) {
        Some(Fault::Config("passage path is excluded by vault policy"@))
    } else {
        None
    }
}

/// Whether a read answers a request, given where its path leads.
pub open spec fn reads_passage(
    r: Result<PassageRead, Error>,
    index: Option<StoredIndex>,
    state: OpenState,
    resolved: Result<Seq<char>, Fault>,
    subtrees: Seq<Seq<char>>,
    path: Seq<char>,
    chunk_id: Seq<char>,
    expected_hash: Seq<char>,
    neighbors: nat,
    max_chars: nat,
) -> bool {
    match passage_gate(index, state.incompatible, resolved, path, subtrees) {
        Some(fault) => r matches Err(error) && error@ == fault,
        None => match passage_answer(
            entries(index->0.chunks@),
            path,
            chunk_id,
            expected_hash,
            neighbors,
            max_chars,
        ) {
            Ok(wanted) => r matches Ok(read) && passages(read.chunks@) == wanted && read.path@
                == path && read.anchor_id@ == chunk_id && read.anchor_hash@ == expected_hash
                && read.built_at@ == index->0.built_at@ && read.index_stale == state.stale,
            Err(fault) => r matches Err(error) && error@ == fault,
        },
    }
}

/// Reads a passage with its neighbours, given where its path leads. Refused where the
/// index is not usable or not there, where the path may not be read, and where the
/// source is left out.
pub fn read_passage_at(
    index: &Option<StoredIndex>,
    state: &OpenState,
    resolved: Result<String, Error>,
    subtrees: &Vec<String>,
    path: &str,
    chunk_id: &str,
    expected_hash: &str,
    neighbors: usize,
    max_chars: usize,
) -> (r: Result<PassageRead, Error>)
    ensures
        reads_passage(
            r,
            *index,
            *state,
            match resolved {
                Ok(full) => Ok(full@),
                Err(error) => Err(error@),
            },
            texts(subtrees@),
            path@,
            chunk_id@,
            expected_hash@,
            neighbors as nat,
            max_chars as nat,
        ),
{
    if state.incompatible {
        return Err(
            Error::Config(copy("embedding index is incompatible; run reindex_embeddings")),
        );
    }
    let stored = match index {
        Some(stored) => stored,
        None => {
            return Err(
                Error::Config(
                    copy("no embedding index exists; run reindex_embeddings before read_passage"),
                ),
            );
        },
    };
    match resolved {
        Ok(_) => {},
        Err(error) => {
            return Err(error);
        },
    }
    if source_path_is_excluded(path, subtrees) {
        return Err(Error::Config(copy("passage path is excluded by vault policy")));
    }
    expand_passage(stored, path, chunk_id, expected_hash, neighbors, max_chars, state.stale)
}

/// Reads a passage with its neighbours, given where its path resolves on disk.
pub fn read_passage(
    manager: &VaultManager,
    on_disk: &Option<OnDisk>,
    index: &Option<StoredIndex>,
    state: &OpenState,
    path: &str,
    chunk_id: &str,
    expected_hash: &str,
    neighbors: usize,
    max_chars: usize,
) -> (r: Result<PassageRead, Error>)
    ensures
        exists|leaves: Option<bool>|
            reads_passage(
                r,
                *index,
                *state,
                #[trigger] note_resolution(manager@, path@, leaves, places_of(*on_disk)),
                manager@.subtrees,
                path@,
                chunk_id@,
                expected_hash@,
                neighbors as nat,
                max_chars as nat,
            ),
{
    let resolved = manager.resolve_path(path, on_disk);
    let ghost leaves = choose|leaves: Option<bool>|
        answers(resolved, #[trigger] note_resolution(manager@, path@, leaves, places_of(*on_disk)));
    let ghost wanted = note_resolution(manager@, path@, leaves, places_of(*on_disk));
    assert(wanted == match resolved {
        Ok(full) => Ok::<Seq<char>, Fault>(full@),
        Err(error) => Err::<Seq<char>, Fault>(error@),
    });
    read_passage_at(
        index,
        state,
        resolved,
        manager.excluded_subtrees(),
        path,
        chunk_id,
        expected_hash,
        neighbors,
        max_chars,
    )
}

// ---------------------------------------------------------------------------
// Dense search
// ---------------------------------------------------------------------------

/// The query that is embedded: refused where the index is not usable, none where it
/// is blank. That the index is outdated is no reason against it.
pub fn dense_query(state: &OpenState, query: &str) -> (r: Result<Option<String>, Error>)
    ensures
        match r {
            Ok(None) => !state.incompatible && trim(query@).len() == 0,
            Ok(Some(text)) => !state.incompatible && trim(query@).len() > 0 && text@ == trim(query@),
            Err(error) => state.incompatible && error@ == Fault::Config(
                "embedding index was built with a different model, schema, chunker, vault path, or document-indexing policy. Run reindex_embeddings before dense search"@,
            ),
        },
{
    if state.incompatible {
        return Err(
            Error::Config(
                copy(
                    "embedding index was built with a different model, schema, chunker, vault path, or document-indexing policy. Run reindex_embeddings before dense search",
                ),
            ),
        );
    }
    let text = trimmed(query);
    if text.as_str().is_empty() {
        Ok(None)
    } else {
        Ok(Some(text))
    }
}

/// What is said of a query vector of the wrong length.
pub open spec fn wrong_dimension(got: nat, wanted: nat) -> Seq<char> {
    "query vector dimension "@ + decimal(got) + " does not match index dimension "@ + decimal(
        wanted,
    )
}

/// The index that a query vector is held against. Refused where no vector came back,
/// where there is no index, and where the vector has another length.
pub fn index_for_query<'a>(index: &'a Option<StoredIndex>, vector: Option<usize>) -> (r: Result<
    &'a StoredIndex,
    Error,
>)
    ensures
        match r {
            Ok(stored) => *index == Some(*stored) && vector == Some(stored.dimension),
            Err(error) => error@ == match vector {
                None => Fault::Other("embedding endpoint returned no query vector"@),
                Some(got) => match index {
                    None => Fault::Config(
                        "no embedding index exists; run reindex_embeddings before dense search"@,
                    ),
                    Some(stored) => Fault::Config(
                        wrong_dimension(got as nat, stored.dimension as nat),
                    ),
                },
            } && !(vector matches Some(got) && index matches Some(stored) && got
                == stored.dimension),
        },
{
    let got: usize = match vector {
        Some(got) => got,
        None => {
            return Err(Error::Other(copy("embedding endpoint returned no query vector")));
        },
    };
    let stored = match index {
        Some(stored) => stored,
        None => {
            return Err(
                Error::Config(
                    copy("no embedding index exists; run reindex_embeddings before dense search"),
                ),
            );
        },
    };
    if stored.dimension != got {
        let mut words: String = String::new();
        words.append("query vector dimension ");
        words.append(to_decimal(got as u64).as_str());
        words.append(" does not match index dimension ");
        words.append(to_decimal(stored.dimension as u64).as_str());
        assert(words@ =~= wrong_dimension(got as nat, stored.dimension as nat));
        return Err(Error::Config(words));
    }
    Ok(stored)
}

/// The positions of the chunks that a search may return.
pub open spec fn candidate_positions(chunks: Seq<EmbeddingChunk>, subtrees: Seq<Seq<char>>) -> Seq<
    int,
>
    decreases chunks.len(),
{
    if chunks.len() == 0 {
        Seq::empty()
    } else if is_source_excluded(chunks.last().path@, subtrees) {
        candidate_positions(chunks.drop_last(), subtrees)
    } else {
        candidate_positions(chunks.drop_last(), subtrees).push(chunks.len() - 1)
    }
}

/// The positions of the chunks that a search may return.
pub fn dense_candidates(index: &StoredIndex, subtrees: &Vec<String>) -> (out: Vec<usize>)
    ensures
        positions_model(out@) == candidate_positions(index.chunks@, texts(subtrees@)),
        forall|k: int| 0 <= k < out.len() ==> #[trigger] out@[k] < index.chunks.len(),
{
    let ghost all = index.chunks@;
    let mut out: Vec<usize> = Vec::new();
    let mut i: usize = 0;
    assert(positions_model(out@) =~= candidate_positions(all.take(0), texts(subtrees@)));
    while i < index.chunks.len()
        invariant
            i <= index.chunks.len(),
            all == index.chunks@,
            positions_model(out@) == candidate_positions(all.take(i as int), texts(subtrees@)),
            forall|k: int| 0 <= k < out.len() ==> #[trigger] out@[k] < index.chunks.len(),
        decreases index.chunks.len() - i,
    {
        assert(all.take(i + 1).drop_last() =~= all.take(i as int));
        if !source_path_is_excluded(index.chunks[i].path.as_str(), subtrees) {
            let ghost before = positions_model(out@);
            out.push(i);
            assert(positions_model(out@) =~= before.push(i as int));
        }
        i = i + 1;
    }
    assert(all.take(i as int) =~= all);
    out
}

/// No chunk of a source that is left out is a candidate.
pub proof fn lemma_candidates_are_not_excluded(
    chunks: Seq<EmbeddingChunk>,
    subtrees: Seq<Seq<char>>,
)
    ensures
        forall|k: int|
            0 <= k < candidate_positions(chunks, subtrees).len() ==> {
                let at = #[trigger] candidate_positions(chunks, subtrees)[k];
                0 <= at < chunks.len() && !is_source_excluded(chunks[at].path@, subtrees)
            },
    decreases chunks.len(),
{
    if chunks.len() > 0 {
        lemma_candidates_are_not_excluded(chunks.drop_last(), subtrees);
        let before = candidate_positions(chunks.drop_last(), subtrees);
        let after = candidate_positions(chunks, subtrees);
        assert forall|k: int| 0 <= k < after.len() implies {
            let at = #[trigger] after[k];
            0 <= at < chunks.len() && !is_source_excluded(chunks[at].path@, subtrees)
        } by {
            if k < before.len() {
                assert(after[k] == before[k]);
                assert(chunks.drop_last()[before[k]] == chunks[before[k]]);
            }
        }
    }
}

// ---------------------------------------------------------------------------
// Vectors that came back
// ---------------------------------------------------------------------------

/// The order of the items of a response: by the number of the input.
pub open spec fn input_order() -> spec_fn((int, int), (int, int)) -> bool {
    |a: (int, int), b: (int, int)| a.0 < b.0
}

/// The items of a response, each with the number of its input and its place.
pub open spec fn numbered(indices: Seq<usize>) -> Seq<(int, int)> {
    Seq::new(indices.len(), |i: int| (indices[i] as int, i))
}

/// The places of the items of a response, in the order of their inputs.
pub fn order_by_input(indices: &Vec<usize>) -> (out: Vec<usize>)
    ensures
        out@.map_values(|p: usize| (indices@[p as int] as int, p as int)) == sort_by(
            numbered(indices@),
            input_order(),
        ),
        forall|k: int| 0 <= k < out.len() ==> #[trigger] out@[k] < indices.len(),
{
    let ghost all = numbered(indices@);
    let ghost shown = |s: Seq<usize>| s.map_values(|p: usize| (indices@[p as int] as int, p as int));
    let mut out: Vec<usize> = Vec::new();
    let mut i: usize = 0;
    assert(shown(out@) =~= sort_by(all.take(0), input_order()));
    while i < indices.len()
        invariant
            i <= indices.len(),
            all == numbered(indices@),
            shown == (|s: Seq<usize>|
                s.map_values(|p: usize| (indices@[p as int] as int, p as int))),
            forall|k: int| 0 <= k < out.len() ==> #[trigger] out@[k] < i,
            shown(out@) == sort_by(all.take(i as int), input_order()),
        decreases indices.len() - i,
    {
        assert(all.take(i + 1).drop_last() =~= all.take(i as int));
        let ghost before = shown(out@);
        let ghost item = (indices@[i as int] as int, i as int);
        let mut k: usize = out.len();
        let mut moving: bool = true;
        while moving
            invariant
                k <= out.len(),
                i < indices.len(),
                shown == (|s: Seq<usize>|
                    s.map_values(|p: usize| (indices@[p as int] as int, p as int))),
                before == shown(out@),
                item == (indices@[i as int] as int, i as int),
                forall|m: int| 0 <= m < out.len() ==> #[trigger] out@[m] < i,
                forall|j: int| k <= j < before.len() ==> input_order()(item, #[trigger] before[j]),
                !moving ==> k == 0 || !input_order()(item, before[k - 1]),
            decreases k, (if moving { 1int } else { 0int }),
        {
            if k == 0 {
                moving = false;
            } else {
                let other: usize = out[k - 1];
                assert(before[k - 1] == (indices@[other as int] as int, other as int));
                if indices[i] < indices[other] {
                    k = k - 1;
                } else {
                    moving = false;
                }
            }
        }
        let ghost old_out = out@;
        out.insert(k, i);
        proof {
            lemma_insert_at(before, item, input_order(), k as int);
            assert(shown(out@) =~= before.insert(k as int, item));
            assert forall|m: int| 0 <= m < out.len() implies #[trigger] out@[m] < i + 1 by {
                if m < k {
                    assert(out@[m] == old_out[m]);
                } else if m > k {
                    assert(out@[m] == old_out[m - 1]);
                }
            }
        }
        i = i + 1;
    }
    assert(all.take(i as int) =~= all);
    out
}

/// The first characters of a response body, as an error message shows it.
pub fn truncate_for_error(body: &str) -> (out: String)
    ensures
        out@ == if body@.len() <= 500 {
            body@
        } else {
            body@.take(500)
        },
        out@.len() <= 500,
        out@ == body@.take(out@.len() as int),
{
    let chars = crate::text::chars_of(body);
    let end: usize = if chars.len() <= 500 {
        chars.len()
    } else {
        500
    };
    let out = crate::text::slice_text(&chars, 0, end);
    assert(out@ =~= body@.take(end as int));
    assert(body@.len() <= 500 ==> body@.take(end as int) =~= body@);
    out
}

} // verus!
