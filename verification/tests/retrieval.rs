//! Chunks, the stored index, passages and hybrid ranking.
use turbovault::chunker::chunk_markdown;
use turbovault::embedding_config::{
    default_index_root, env_bool, env_usize, select_reranker_api_key, EmbeddingConfig, Environment,
    DEFAULT_DOCUMENT_MAX_BYTES, DEFAULT_MODEL,
};
use turbovault::engine::{
    dense_candidates, dense_query, index_for_query, open_state, order_by_input, read_passage_at,
    status, truncate_for_error, OpenState,
};
use turbovault::error::Error;
use turbovault::hashing::{hash_path, hex_hash, stable_slug};
use turbovault::hybrid::{
    apply_rerank, assign_scores, candidate_limit, finish_search, first_results, fuse_search,
    pool_size, rank_fused, rerank_document, rerank_documents, search_failure, should_rerank,
    ChannelFailure, DenseHit, HybridAccumulator, HybridDiagnostics, SparseHit, RRF_K,
};
use turbovault::index::{
    document_manifest_for, document_sources_changed, index_mismatch, is_document_path,
    is_path_excluded, source_path_is_excluded, stored_index_has_excluded_sources, EmbeddingChunk,
    Mismatch, StoredIndex, CHUNKER_VERSION, INDEX_SCHEMA_VERSION,
};
use turbovault::numbers::{parse_number, to_decimal};
use turbovault::packing::{split_oversized_block, trailing_whole_blocks};
use turbovault::passage::{expand_passage, root_heading};
use turbovault::refresh::{
    refresh_due, refresh_if_due, refresh_report, Moment, RefreshInputs, RefreshReport, RefreshStep,
};
use turbovault::reindex::{
    batch_end, build_index, check_batch, document_source_type, document_title, note_title,
    order_by_id, plan_source, queue_text_chunks, CutText, ReindexProgress, ReindexRun, Source, SourcePlan,
};
use turbovault::scan::ScannedNote;

fn passage_fixture() -> StoredIndex {
    let chunk = |path: &str, n: usize, heading: &str, text: &str| EmbeddingChunk {
        id: format!("{path}#{n}"),
        path: path.into(),
        title: "Fixture".into(),
        heading: Some(heading.into()),
        text: text.into(),
        content_hash: "source".into(),
        dimension: 1,
    };
    StoredIndex {
        schema_version: INDEX_SCHEMA_VERSION,
        chunker_version: CHUNKER_VERSION.into(),
        model: DEFAULT_MODEL.into(),
        vault_path: "/fixture".into(),
        dimension: 1,
        built_at: "2026-01-01T00:00:00Z".into(),
        document_indexing_enabled: false,
        document_max_bytes: DEFAULT_DOCUMENT_MAX_BYTES as u64,
        document_manifest: vec![],
        chunks: vec![
            chunk("one.md", 0, "First", "intro"),
            chunk("one.md", 1, "First > Detail", "éclat 🎉 data"),
            chunk("one.md", 2, "First > More", "ending"),
            chunk("one.md", 3, "Second", "unrelated"),
            chunk("two.md", 0, "First", "other note"),
        ],
    }
}

#[test]
fn passage_expansion_is_bounded_same_section_and_anchor_first() {
    let index = passage_fixture();
    let hash = hex_hash("éclat 🎉 data".as_bytes());
    let read = expand_passage(&index, "one.md", "one.md#1", &hash, 3, 20, true).unwrap();
    assert!(read.index_stale);
    assert_eq!(
        read.chunks.iter().map(|c| c.chunk_id.as_str()).collect::<Vec<_>>(),
        vec!["one.md#0", "one.md#1", "one.md#2"]
    );
    assert_eq!(read.chunks.iter().map(|c| c.text.chars().count()).sum::<usize>(), 20);
    assert_eq!(read.chunks.iter().find(|c| c.anchor).unwrap().text, "éclat 🎉 data");
    assert!(read.chunks.iter().any(|c| c.truncated));
}

#[test]
fn passage_rejects_wrong_path_missing_and_reused_ordinal() {
    let mut index = passage_fixture();
    let hash = hex_hash("éclat 🎉 data".as_bytes());
    assert!(expand_passage(&index, "two.md", "one.md#1", &hash, 1, 100, false).is_err());
    assert!(expand_passage(&index, "one.md", "one.md#19", &hash, 1, 100, false).is_err());
    index.chunks[1].text = "replaced".into();
    assert!(expand_passage(&index, "one.md", "one.md#1", &hash, 1, 100, false).is_err());
}

#[test]
fn passage_truncates_at_unicode_character_boundary() {
    let index = passage_fixture();
    let hash = hex_hash("éclat 🎉 data".as_bytes());
    let read = expand_passage(&index, "one.md", "one.md#1", &hash, 1, 7, false).unwrap();
    assert_eq!(read.chunks.len(), 1);
    assert_eq!(read.chunks[0].text, "éclat 🎉");
    assert!(read.chunks[0].truncated);
    let first =
        expand_passage(&index, "one.md", "one.md#0", &hex_hash(b"intro"), 3, 100, false).unwrap();
    assert_eq!(first.chunks.len(), 3);
}

#[test]
fn chunker_keeps_subsections_with_parent_when_they_fit() {
    let chunks = chunk_markdown(
        "# One\n\nintro\n\n## Two\n\ndetails\n\n### Three\n\nmore details",
        "Different title",
        200,
        20,
    );
    assert_eq!(chunks.len(), 1);
    assert_eq!(chunks[0].heading.as_deref(), Some("One"));
    assert!(chunks[0].markdown.contains("## Two"));
    assert!(chunks[0].markdown.contains("### Three"));
}

#[test]
fn chunker_splits_root_sections_but_not_their_small_subsections() {
    let chunks = chunk_markdown(
        "# One\n\nalpha\n\n## Detail\n\nbeta\n\n# Two\n\ngamma\n\n## Detail\n\ndelta",
        "Note",
        200,
        20,
    );
    assert_eq!(chunks.len(), 2);
    assert_eq!(chunks[0].heading.as_deref(), Some("One"));
    assert_eq!(chunks[1].heading.as_deref(), Some("Two"));
    assert!(chunks[0].markdown.contains("## Detail"));
    assert!(chunks[1].markdown.contains("## Detail"));
}

#[test]
fn matching_h1_title_is_a_wrapper_not_one_giant_section() {
    let chunks =
        chunk_markdown("# My Note\n\n## One\n\nalpha\n\n## Two\n\nbeta", "My Note", 200, 20);
    assert_eq!(chunks.len(), 2);
    assert_eq!(chunks[0].heading.as_deref(), Some("My Note > One"));
    assert_eq!(chunks[1].heading.as_deref(), Some("My Note > Two"));
}

#[test]
fn heading_inside_fenced_code_does_not_split_the_section() {
    let chunks = chunk_markdown(
        "# One\n\n```sh\n# not a heading\necho test\n```\n\n## Two\n\ntext",
        "Note",
        200,
        20,
    );
    assert_eq!(chunks.len(), 1);
    assert_eq!(chunks[0].heading.as_deref(), Some("One"));
    assert!(chunks[0].markdown.contains("# not a heading"));
    assert!(chunks[0].markdown.contains("## Two"));
}

#[test]
fn oversized_subtree_splits_recursively_at_child_sections() {
    let chunks = chunk_markdown(
        "# One\n\n## Alpha\n\n12345678901234567890\n\n## Beta\n\nabcdefghijklmnopqrst",
        "Note",
        35,
        0,
    );
    assert_eq!(chunks.len(), 2);
    assert_eq!(chunks[0].heading.as_deref(), Some("One > Alpha"));
    assert_eq!(chunks[1].heading.as_deref(), Some("One > Beta"));
}

#[test]
fn a_blank_line_in_a_fence_opens_no_section() {
    let markdown = "# One\n\n```\na\n\n# inside\n```\n\ntext";
    let chunks = chunk_markdown(markdown, "Note", 200, 0);
    assert_eq!(chunks.len(), 1);
    assert_eq!(chunks[0].heading.as_deref(), Some("One"));
}

#[test]
fn chunks_stay_within_their_size() {
    let text = "word. ".repeat(100);
    let markdown = format!("# One\n\n{text}\n\n{text}");
    for chunk in chunk_markdown(&markdown, "Note", 120, 30) {
        assert!(chunk.markdown.chars().count() <= 120);
    }
    assert_eq!(split_oversized_block("abcdef", 4), vec!["abcd", "ef"]);
    let blocks = vec!["long block".to_string(), "ab".to_string(), "cd".to_string()];
    assert_eq!(trailing_whole_blocks(&blocks, 6), vec!["ab", "cd"]);
}

fn stored_index(model: &str, vault_path: &str) -> StoredIndex {
    StoredIndex {
        schema_version: INDEX_SCHEMA_VERSION,
        chunker_version: CHUNKER_VERSION.to_string(),
        model: model.to_string(),
        vault_path: vault_path.to_string(),
        dimension: 4096,
        built_at: "2026-01-01T00:00:00Z".to_string(),
        document_indexing_enabled: false,
        document_max_bytes: DEFAULT_DOCUMENT_MAX_BYTES as u64,
        document_manifest: Vec::new(),
        chunks: Vec::new(),
    }
}

#[test]
fn stale_index_is_usable_and_only_config_changes_are_incompatible() {
    let vault = "/home/samuel/vault";
    let model = "Qwen/Qwen3-Embedding-8B-GGUF";
    let max = DEFAULT_DOCUMENT_MAX_BYTES as u64;
    let index = stored_index(model, vault);

    assert_eq!(index_mismatch(&index, model, vault, false, max), None);
    assert!(index_mismatch(&index, "BAAI/bge-m3", vault, false, max).is_some());
    assert!(index_mismatch(&index, model, "/other/vault", false, max).is_some());

    let mut reschemaed = stored_index(model, vault);
    reschemaed.schema_version = INDEX_SCHEMA_VERSION + 1;
    assert!(index_mismatch(&reschemaed, model, vault, false, max).is_some());

    let mut rechunked = stored_index(model, vault);
    rechunked.chunker_version = "markdown-heading-v2".to_string();
    assert!(index_mismatch(&rechunked, model, vault, false, max).is_some());

    assert!(index_mismatch(&index, model, vault, true, max).is_some());
}

#[test]
fn a_mismatch_says_what_differs() {
    let index = stored_index("m", "/v");
    let max = DEFAULT_DOCUMENT_MAX_BYTES as u64;
    assert_eq!(index_mismatch(&index, "n", "/v", false, max), Some(Mismatch::Model));
    assert_eq!(index_mismatch(&index, "m", "/w", false, max), Some(Mismatch::VaultPath));
    assert_eq!(index_mismatch(&index, "m", "/v", true, max), Some(Mismatch::DocumentPolicy));
    assert_eq!(index_mismatch(&index, "m", "/v", false, max + 1), Some(Mismatch::DocumentPolicy));
    assert_eq!(Mismatch::Model.reason(), "index was built with a different embedding model");
}

fn moment(hours: i64) -> Moment {
    Moment { secs: 1_789_992_000 + hours * 3600, nanos: 0 }
}

fn written(hours: i64) -> Option<String> {
    let day = 21 + hours.div_euclid(24) + if hours.rem_euclid(24) >= 12 { 1 } else { 0 };
    let hour = (12 + hours.rem_euclid(24)) % 24;
    Some(format!("2026-09-{day:02}T{hour:02}:00:00+00:00"))
}

#[test]
fn refresh_is_due_only_when_stale_and_past_the_threshold() {
    let threshold = 6 * 3600;
    let now = moment(0);
    let built = |hours_ago: i64| written(-hours_ago);

    assert!(!refresh_due(false, &built(48), threshold, &now));

    assert!(!refresh_due(true, &built(1), threshold, &now));
    assert!(!refresh_due(true, &built(5), threshold, &now));

    assert!(refresh_due(true, &built(7), threshold, &now));
    assert!(refresh_due(true, &built(100), threshold, &now));

    assert!(!refresh_due(true, &built(100), 0, &now));

    assert!(refresh_due(true, &None, threshold, &now));
    assert!(refresh_due(true, &Some("not a timestamp".to_string()), threshold, &now));

    assert!(!refresh_due(true, &written(5), threshold, &now));
}

fn inputs() -> RefreshInputs {
    RefreshInputs {
        reindex_running: false,
        refresh_after_secs: 10,
        index_exists: true,
        excluded_present: false,
        documents_changed: false,
        due_by_age: true,
        since_last_try: None,
        refresh_busy: false,
    }
}

#[test]
fn a_refresh_waits_for_its_turn() {
    let step = |i: &RefreshInputs| refresh_if_due(i).refresh;
    assert!(step(&inputs()));
    assert!(!step(&RefreshInputs { due_by_age: false, ..inputs() }));
    assert!(!step(&RefreshInputs { reindex_running: true, ..inputs() }));
    assert!(!step(&RefreshInputs { index_exists: false, ..inputs() }));
    assert!(!step(&RefreshInputs { refresh_busy: true, ..inputs() }));
    assert!(!step(&RefreshInputs { since_last_try: Some(299), ..inputs() }));
    assert!(step(&RefreshInputs { since_last_try: Some(300), ..inputs() }));
    let done = RefreshStep { mark_stale: false, refresh: true };
    assert!(refresh_report(&done, None).refreshed);
    let failed = refresh_report(&done, Some("no endpoint".to_string()));
    assert!(!failed.refreshed);
    assert_eq!(failed.failure.as_deref(), Some("no endpoint"));
}

#[test]
fn diagnostics_are_complete_when_every_channel_contributed() {
    let healthy = HybridDiagnostics::default();
    assert!(healthy.is_complete());

    let degraded = HybridDiagnostics {
        dense_unavailable: Some("embedding endpoint unreachable".to_string()),
        index_stale: true,
        ..Default::default()
    };
    assert!(!degraded.is_complete());
}

#[test]
fn stable_slug_is_deterministic_and_short() {
    assert_eq!(stable_slug("vault"), stable_slug("vault"));
    assert_eq!(stable_slug("vault").len(), 24);
}

#[test]
fn test_hash_path_deterministic() {
    let path = "/home/user/projects/vault";
    let h1 = hash_path(path);
    let h2 = hash_path(path);
    assert_eq!(h1, h2, "same path must always produce the same hash");
    assert_eq!(h1.len(), 16);
}

#[test]
fn test_hash_path_different_paths() {
    let h1 = hash_path("/home/user/vault-a");
    let h2 = hash_path("/home/user/vault-b");
    assert_ne!(h1, h2, "different paths must produce different hashes");
}

#[test]
fn digests_are_written_in_hexadecimal() {
    let abc = "ba7816bf8f01cfea414140de5dae2223b00361a396177a9cb410ff61f20015ad";
    assert_eq!(hex_hash(b"abc"), abc);
    assert_eq!(stable_slug("abc"), &abc[..24]);
    assert_eq!(hash_path("abc"), &abc[..16]);
}

#[test]
fn document_manifest_is_sorted_and_preserves_fingerprints() {
    let documents = vec![
        ScannedNote {
            path: "/vault/z.docx".to_string(),
            size_bytes: 20,
            modified: Some(9_000_000),
        },
        ScannedNote {
            path: "/vault/a.pdf".to_string(),
            size_bytes: 10,
            modified: Some(4_000_000),
        },
    ];
    let manifest = document_manifest_for("/vault", &documents);
    assert_eq!(manifest[0].path, "a.pdf");
    assert_eq!(manifest[0].size_bytes, 10);
    assert_eq!(manifest[0].modified_millis, Some(4));
    assert_eq!(manifest[1].path, "z.docx");

    let mut index = stored_index("m", "/vault");
    index.document_manifest = manifest;
    let stored = Some(index);
    assert!(!document_sources_changed(&stored, "/vault", &documents));
    assert!(document_sources_changed(&stored, "/vault", &Vec::new()));
    assert!(!document_sources_changed(&None, "/vault", &documents));
}

#[test]
fn document_paths_are_detected_case_insensitively() {
    assert!(is_document_path("attachments/paper.PDF"));
    assert!(is_document_path("attachments/draft.docx"));
    assert!(!is_document_path("notes/paper.md"));
}

#[test]
fn path_exclusion_detects_trash_and_obsidian() {
    assert!(is_path_excluded(".trash/note.md"));
    assert!(is_path_excluded("folder/.trash/note.md"));
    assert!(is_path_excluded(".obsidian/workspace.json"));
    assert!(!is_path_excluded("10_Projects/note.md"));
    assert!(!is_path_excluded("trash_collection/note.md"));
}

#[test]
fn excluded_subtrees_are_removed_from_existing_rag_candidates() {
    let subtrees: Vec<String> =
        ["Agents", "Chats", "90_Archive"].iter().map(|s| s.to_string()).collect();
    let chunk = |path: &str| EmbeddingChunk {
        id: format!("{path}#0"),
        path: path.into(),
        title: "Fixture".into(),
        heading: None,
        text: format!("content from {path}"),
        content_hash: "source".into(),
        dimension: 1,
    };
    let mut index = passage_fixture();
    index.chunks = [
        "Agents/private/deep.md",
        "Chats/session.md",
        "90_Archive/old.md",
        "projects/Agents/visible.md",
        "Agents-old/visible.md",
        "visible.md",
    ]
    .into_iter()
    .map(chunk)
    .collect();

    let visible: Vec<&str> = index
        .chunks
        .iter()
        .filter(|chunk| !source_path_is_excluded(&chunk.path, &subtrees))
        .map(|chunk| chunk.path.as_str())
        .collect();
    assert_eq!(visible, ["projects/Agents/visible.md", "Agents-old/visible.md", "visible.md"]);
    assert!(stored_index_has_excluded_sources(&index, &subtrees));
    assert_eq!(dense_candidates(&index, &subtrees), vec![3, 4, 5]);
}

fn dense(path: &str, n: usize) -> DenseHit {
    DenseHit {
        path: path.to_string(),
        title: "Test".to_string(),
        heading: None,
        text: "text".to_string(),
        chunk_id: format!("{path}#{n}"),
    }
}

fn sparse(path: &str) -> SparseHit {
    SparseHit {
        path: path.to_string(),
        title: "Test".to_string(),
        preview: "preview".to_string(),
        snippet: "snippet".to_string(),
    }
}

#[test]
fn rrf_deduplication_prevents_multi_chunk_inflation() {
    let fused = rank_fused(
        &vec![dense("test.md", 0), dense("test.md", 1), dense("test.md", 2)],
        &vec![sparse("other.md"), sparse("test.md")],
    );
    assert_eq!(fused.len(), 2);
    let entry = &fused[0];
    assert_eq!(entry.path, "test.md");
    assert_eq!(entry.chunk_id.as_deref(), Some("test.md#0"));
    let worth = |rank: Option<usize>| 1.0 / (RRF_K + rank.unwrap()) as f64;
    let expected = (1.0 / 61.0) + (1.0 / 62.0);
    assert!((worth(entry.dense_rank) + worth(entry.sparse_rank) - expected).abs() < 1e-9);
}

#[test]
fn fused_results_are_ordered_by_their_worth() {
    let fused = rank_fused(
        &vec![dense("a.md", 0), dense("b.md", 0)],
        &vec![sparse("b.md"), sparse("c.md")],
    );
    let paths: Vec<&str> = fused.iter().map(|h| h.path.as_str()).collect();
    assert_eq!(paths, vec!["b.md", "a.md", "c.md"]);
    assert_eq!(fused[0].chunk_hash(), Some(hex_hash(b"text")));
    assert_eq!(fused[2].chunk_hash(), None);
}

#[test]
fn reranking_reorders_the_pool_and_keeps_the_rest() {
    let fused = rank_fused(&vec![dense("a.md", 0), dense("b.md", 0), dense("c.md", 0)], &vec![]);
    assert!(should_rerank(true, "http://x", 3));
    assert!(!should_rerank(true, "  ", 3));
    assert!(!should_rerank(false, "http://x", 3));
    assert_eq!(pool_size(10, 3), 3);
    assert_eq!((candidate_limit(1), candidate_limit(10), candidate_limit(50)), (20, 50, 100));
    let reranked = apply_rerank(&fused, 2, &vec![1, 0]);
    let paths: Vec<&str> = reranked.iter().map(|h| h.path.as_str()).collect();
    assert_eq!(paths, vec!["b.md", "a.md", "c.md"]);
    assert_eq!(reranked[0].rerank_rank, Some(1));
    assert_eq!(first_results(reranked, 1).len(), 1);
    assert!(rerank_document(&fused[0]).contains("text"));
}

#[test]
fn a_reranker_must_score_every_document() {
    assert_eq!(assign_scores(&vec![1, 0], 2).unwrap(), vec![1, 0]);
    assert!(matches!(
        assign_scores(&vec![1], 2),
        Err(Error::Other(m)) if m == "reranker response omitted one or more documents"
    ));
}

#[test]
fn a_search_fails_only_when_both_channels_do() {
    let error = |m: &str| Some(Error::Parse(m.to_string()));
    assert!(search_failure(1, 0, None, error("s")).is_none());
    assert!(matches!(
        search_failure(0, 0, error("d"), Some(Error::Io("s".to_string()))),
        Some(Error::Parse(m)) if m == "d"
    ));
    assert!(matches!(search_failure(0, 0, None, error("s")), Some(Error::Parse(m)) if m == "s"));
    assert!(search_failure(0, 0, None, None).is_none());
    let entry = HybridAccumulator::new("p", "t", &None, "x", None);
    assert_eq!(entry.dense_rank, None);
}

#[test]
fn dedicated_reranker_key_overrides_shared_embedding_key() {
    let shared = Some("shared".to_string());
    assert_eq!(
        select_reranker_api_key(Some("dedicated".to_string()), &shared).as_deref(),
        Some("dedicated")
    );
    assert_eq!(select_reranker_api_key(None, &shared).as_deref(), Some("shared"));
    assert_eq!(select_reranker_api_key(None, &None), None);
}

fn empty_environment() -> Environment {
    Environment {
        endpoint: None,
        model: None,
        api_key: None,
        chunk_chars: None,
        chunk_overlap: None,
        batch_size: None,
        document_indexing_enabled: None,
        document_max_bytes: None,
        reranker_endpoint: None,
        reranker_model: None,
        reranker_enabled: None,
        reranker_api_key: None,
        reranker_batch_size: None,
        refresh_after_secs: None,
        index_dir: None,
        on_windows: false,
        cache_home: Some("/c".to_string()),
        local_app_data: None,
        home: None,
    }
}

#[test]
fn settings_have_defaults_and_limits() {
    let config = EmbeddingConfig::from_environment("/vault", &empty_environment()).unwrap();
    assert_eq!(config.model, DEFAULT_MODEL);
    assert_eq!(config.chunk_chars, 2400);
    assert!(!config.api_key_configured);
    assert_eq!(config.refresh_after_secs, 21_600);
    let bad = Environment { chunk_chars: Some("many".to_string()), ..empty_environment() };
    assert!(matches!(EmbeddingConfig::from_environment("/vault", &bad), Err(Error::Config(_))));
    let keyed = Environment { api_key: Some("k".to_string()), ..empty_environment() };
    let config = EmbeddingConfig::from_environment("/vault", &keyed).unwrap();
    assert_eq!(config.reranker_api_key.expose().as_deref(), Some("k"));
    assert!(config.api_key.is_set());
}

#[test]
fn indexes_lie_under_the_users_directories() {
    let dir = |s: &str| Some(s.to_string());
    let root = |windows: bool, cache: &str, local: &str, home: &str| {
        let set = |s: &str| if s.is_empty() { None } else { dir(s) };
        default_index_root(windows, &set(cache), &set(local), &set(home))
    };
    assert_eq!(root(true, "/c", "/l", "/h"), "/c/turbovault/embeddings");
    assert_eq!(root(true, "", "/l", "/h"), "/l/turbovault/embeddings");
    assert_eq!(root(false, "", "/l", "/h"), "/h/.cache/turbovault/embeddings");
    assert_eq!(root(true, "", "", "/h"), "/h/.cache/turbovault/embeddings");
    assert_eq!(root(false, "", "/l", ""), ".turbovault/embeddings");
}

#[test]
fn switches_and_sizes_are_read_from_text() {
    let text = |s: &str| Some(s.to_string());
    assert!(env_bool("X", &text(" YES "), false).unwrap());
    assert!(!env_bool("X", &text("off"), true).unwrap());
    assert!(env_bool("X", &None, true).unwrap());
    assert!(env_bool("X", &text("maybe"), true).is_err());
    assert_eq!(env_usize("X", &text("12"), 3).unwrap(), 12);
    assert_eq!(env_usize("X", &None, 3).unwrap(), 3);
    assert!(env_usize("X", &text("-1"), 3).is_err());
    assert_eq!(parse_number(&to_decimal(u64::MAX)), Some(u64::MAX));
    assert_eq!(parse_number("18446744073709551616"), None);
}

#[test]
fn an_index_opens_as_its_settings_allow() {
    let config = EmbeddingConfig::from_environment("/fixture", &empty_environment()).unwrap();
    let mut stored = passage_fixture();
    stored.document_indexing_enabled = config.document_indexing_enabled;
    stored.document_max_bytes = config.document_max_bytes;
    let index = Some(stored);
    let state = open_state(false, true, &index, &config, "/fixture", &Vec::new());
    assert!(!state.incompatible && !state.stale);
    assert!(open_state(false, true, &index, &config, "/other", &Vec::new()).incompatible);
    assert!(open_state(true, true, &index, &config, "/fixture", &Vec::new()).stale);
    let shown = status(
        &config,
        &index,
        &ReindexProgress::default(),
        "/i",
        &state,
        &vec!["two.md".to_string()],
    );
    assert_eq!(shown.chunks, 4);
    assert_eq!(shown.dimensions, 1);
    assert!(shown.exists);
}

#[test]
fn a_dense_search_needs_a_usable_index() {
    let good = OpenState { stale: true, incompatible: false };
    let bad = OpenState { stale: false, incompatible: true };
    assert_eq!(dense_query(&good, " q ").unwrap().as_deref(), Some("q"));
    assert_eq!(dense_query(&good, "  ").unwrap(), None);
    assert!(matches!(dense_query(&bad, "q"), Err(Error::Config(_))));
    let index = Some(passage_fixture());
    assert!(index_for_query(&index, Some(1)).is_ok());
    assert!(matches!(index_for_query(&index, Some(2)), Err(Error::Config(_))));
    assert!(matches!(index_for_query(&index, None), Err(Error::Other(_))));
    assert!(matches!(index_for_query(&None, Some(1)), Err(Error::Config(_))));
    assert_eq!(order_by_input(&vec![2, 0, 1, 0]), vec![1, 3, 2, 0]);
    assert_eq!(truncate_for_error(&"é".repeat(900)).chars().count() < 900, true);
}

#[test]
fn a_passage_is_read_only_from_a_usable_index() {
    let index = Some(passage_fixture());
    let good = OpenState { stale: false, incompatible: false };
    let read = |state: &OpenState, resolved: Result<String, Error>| {
        read_passage_at(
            &index,
            state,
            resolved,
            &Vec::new(),
            "one.md",
            "one.md#0",
            &hex_hash(b"intro"),
            0,
            100,
        )
    };
    let passage = read(&good, Ok("/fixture/one.md".to_string())).unwrap();
    assert_eq!(passage.chunks[0].text, "intro");
    assert!(read(&good, Err(Error::Other("refused".to_string()))).is_err());
    let bad = OpenState { stale: false, incompatible: true };
    assert!(read(&bad, Ok("/fixture/one.md".to_string())).is_err());
    assert_eq!(root_heading(&Some("A > B".to_string())).as_deref(), Some("A"));
}

#[test]
fn unchanged_sources_keep_their_chunks() {
    let index = Some(passage_fixture());
    assert!(matches!(
        plan_source(&index, DEFAULT_MODEL, "one.md", "source"),
        SourcePlan::Reuse(held) if held == vec![0, 1, 2, 3]
    ));
    assert!(matches!(plan_source(&index, DEFAULT_MODEL, "one.md", "new"), SourcePlan::Embed));
    assert!(matches!(plan_source(&index, "other", "one.md", "source"), SourcePlan::Embed));
    assert!(matches!(
        plan_source(&index, DEFAULT_MODEL, ".trash/x.md", "source"),
        SourcePlan::Skip
    ));
}

fn source(path: &str, hash: &str, markdown: Option<&str>) -> Source {
    let text = markdown.map(|markdown| {
        let cut = CutText::new("New".to_string(), "Markdown note", markdown, 200, 0);
        let plain = cut.chunks().iter().map(|c| c.markdown.clone()).collect();
        cut.with_plain(plain)
    });
    Source { path: path.to_string(), content_hash: hash.to_string(), text }
}

#[test]
fn a_run_carries_over_what_is_unchanged_and_queues_the_rest() {
    let index = Some(passage_fixture());
    let mut run = ReindexRun::new();
    run.take(&index, DEFAULT_MODEL, &source("two.md", "source", None));
    assert_eq!(run.kept.len(), 1);
    run.take(&index, DEFAULT_MODEL, &source("new.md", "hash", Some("# Head\n\nbody")));
    run.take(&index, DEFAULT_MODEL, &source(".trash/x.md", "hash", Some("# Head\n\nbody")));
    run.take(&index, DEFAULT_MODEL, &source("broken.pdf", "hash", None));
    assert_eq!(run.kept.len(), 1);
    assert_eq!(run.pending.len(), 1);
    assert_eq!(run.pending[0].id, "new.md#0");
    assert!(run.pending[0].input.contains("new.md"));
}

#[test]
fn building_again_from_the_same_sources_embeds_nothing() {
    let index = Some(passage_fixture());
    let mut run = ReindexRun::new();
    run.take(&index, DEFAULT_MODEL, &source("one.md", "source", Some("# Head\n\nbody")));
    run.take(&index, DEFAULT_MODEL, &source("two.md", "source", Some("# Head\n\nbody")));
    assert_eq!(run.kept.len(), index.as_ref().unwrap().chunks.len());
    assert!(run.pending.is_empty());
    assert!(run.next_inputs(4).is_empty());
}

#[test]
fn what_is_gone_from_the_vault_is_gone_from_the_index() {
    let config = EmbeddingConfig::from_environment("/fixture", &empty_environment()).unwrap();
    let index = Some(passage_fixture());
    let mut run = ReindexRun::new();
    run.take(&index, DEFAULT_MODEL, &source("two.md", "source", None));
    let built =
        run.finish(&index, &config, "/fixture", "2026-01-02T00:00:00Z", Vec::new()).unwrap();
    assert!(built.index.chunks.iter().all(|c| c.path == "two.md"));
}

#[test]
fn a_run_sends_batches_and_refuses_wrong_answers() {
    let mut run = ReindexRun::new();
    for name in ["a.md", "b.md", "c.md"] {
        run.take(&None, DEFAULT_MODEL, &source(name, "hash", Some("body")));
    }
    assert_eq!(run.next_inputs(2).len(), 2);
    assert!(matches!(
        run.accept(2, &vec![4]),
        Err(Error::Other(m)) if m == "embedding endpoint returned 1 vectors for 2 inputs"
    ));
    assert!(run.dimensions.is_empty());
    run.accept(2, &vec![4, 4]).unwrap();
    let last = run.next_inputs(2);
    assert_eq!(last.len(), 1);
    assert!(last[0].contains("Path: c.md\n"));
    run.accept(2, &vec![4]).unwrap();
    assert!(run.next_inputs(2).is_empty());
    assert_eq!(run.dimensions, vec![4, 4, 4]);
}

#[test]
fn a_finished_run_is_an_index_in_the_order_of_its_identifiers() {
    let config = EmbeddingConfig::from_environment("/fixture", &empty_environment()).unwrap();
    let index = Some(passage_fixture());
    let run_with = |dimension: usize| {
        let mut run = ReindexRun::new();
        run.take(&index, DEFAULT_MODEL, &source("two.md", "source", None));
        run.take(&index, DEFAULT_MODEL, &source("new.md", "hash", Some("# Head\n\nbody")));
        run.accept(8, &vec![dimension]).unwrap();
        run
    };
    let built = run_with(1)
        .finish(&index, &config, "/fixture", "2026-01-02T00:00:00Z", Vec::new())
        .unwrap();
    let paths: Vec<&str> = built.index.chunks.iter().map(|c| c.path.as_str()).collect();
    assert_eq!(paths, vec!["new.md", "two.md"]);
    assert_eq!(built.order, vec![1, 0]);
    assert_eq!(order_by_id(&built.index.chunks), vec![0, 1]);
    assert_eq!(
        index_mismatch(
            &built.index,
            DEFAULT_MODEL,
            "/fixture",
            config.document_indexing_enabled,
            config.document_max_bytes
        ),
        None
    );
    assert!(run_with(2)
        .finish(&index, &config, "/fixture", "2026-01-02T00:00:00Z", Vec::new())
        .is_err());
}

fn down(text: &str) -> ChannelFailure {
    ChannelFailure { error: Error::Other(text.to_string()), reason: text.to_string() }
}

#[test]
fn a_search_goes_on_with_the_channel_that_is_left() {
    let no_refresh = || RefreshReport { refreshed: false, failure: None };
    let subtrees = vec!["hidden".to_string()];
    let fused = fuse_search(
        Err(down("endpoint down")),
        Ok(vec![sparse("hidden/x.md"), sparse("a.md"), sparse("b.md")]),
        &subtrees,
    )
    .unwrap();
    assert_eq!(fused.dense_unavailable.as_deref(), Some("endpoint down"));
    assert_eq!(fused.results.len(), 2);
    assert_eq!(fused.results[0].sparse_rank, Some(1));
    let documents = rerank_documents(&fused.results, 1, true, "http://r").unwrap();
    assert_eq!(documents[0], "Title: Test\nContent:\npreview");
    assert_eq!(rerank_documents(&fused.results, 1, true, " "), None);
    let outcome = finish_search(fused, Some(Ok(vec![1, 0])), 1, true, no_refresh());
    assert_eq!(outcome.results.len(), 1);
    assert_eq!(outcome.results[0].path, "b.md");
    assert!(outcome.diagnostics.index_stale);
    assert!(!outcome.diagnostics.is_complete());

    let fused = fuse_search(Ok(vec![dense("a.md", 0)]), Ok(Vec::new()), &subtrees).unwrap();
    let outcome =
        finish_search(fused, Some(Err("no reranker".to_string())), 5, false, no_refresh());
    assert_eq!(outcome.results[0].path, "a.md");
    assert_eq!(outcome.diagnostics.rerank_unavailable.as_deref(), Some("no reranker"));
}

#[test]
fn a_search_without_any_channel_is_a_failure() {
    let hidden = vec!["hidden".to_string()];
    let bad_query = ChannelFailure {
        error: Error::Config("bad query".to_string()),
        reason: "Configuration error: bad query".to_string(),
    };
    let failed = fuse_search(Ok(Vec::new()), Err(bad_query), &hidden);
    assert!(matches!(failed, Err(Error::Config(text)) if text == "bad query"));
    let failed =
        fuse_search(Err(down("down")), Ok(vec![sparse("hidden/x.md")]), &hidden);
    assert!(matches!(failed, Err(Error::Other(text)) if text == "down"));
    let failed = fuse_search(Err(down("dense")), Err(down("sparse")), &hidden);
    assert!(matches!(failed, Err(Error::Other(text)) if text == "dense"));
    assert!(fuse_search(Ok(Vec::new()), Ok(Vec::new()), &hidden).unwrap().results.is_empty());
}

#[test]
fn vectors_of_different_lengths_make_no_index() {
    let mut chunks = passage_fixture().chunks;
    chunks[1].dimension = 2;
    assert!(build_index(chunks, "m", "/v", "t", false, 5, Vec::new()).is_err());
}

#[test]
fn batches_cover_all_inputs() {
    assert_eq!(batch_end(0, 5, 2), 2);
    assert_eq!(batch_end(4, 5, 2), 5);
    assert!(check_batch(2, 2).is_ok());
    assert!(matches!(
        check_batch(1, 2),
        Err(Error::Other(m)) if m == "embedding endpoint returned 1 vectors for 2 inputs"
    ));
}

#[test]
fn sources_have_titles_and_types() {
    assert_eq!(note_title(&None, &Some("H".to_string()), "a/b.md"), "H");
    assert_eq!(note_title(&None, &None, "a/b.md"), "b");
    assert_eq!(document_title("a/b.pdf"), "b");
    assert_eq!(document_source_type("a/b.PDF"), "PDF attachment");
    assert_eq!(document_source_type("a/b.docx"), "DOCX attachment");
}

#[test]
fn progress_follows_a_run() {
    let mut progress = ReindexProgress::default();
    progress.begin_reindex("t0");
    assert!(progress.in_progress);
    progress.set_reindex_phase("embedding", 0, 4);
    progress.set_reindex_progress(2, 4);
    assert_eq!(progress.processed_chunks, 2);
    assert_eq!(progress.phase.as_deref(), Some("embedding"));
    progress.finish_reindex(&Some("failed".to_string()), "t1");
    assert!(!progress.in_progress);
    assert_eq!(progress.error.as_deref(), Some("failed"));
    assert_eq!(progress.completed_at.as_deref(), Some("t1"));
}

#[test]
fn chunks_hold_every_line_of_a_note() {
    let note = "intro\r\n\r\n# One\n\nalpha beta\ngamma\n\n## Deep\n\n```\n# not a heading\n\ncode\n```\n\n# Two\n\nomega";
    for max in [16, 24, 40, 400] {
        let chunks = chunk_markdown(note, "Title", max, 8);
        for line in ["intro", "alpha beta", "gamma", "# not a heading", "code", "omega"] {
            assert!(chunks.iter().any(|c| c.markdown.contains(line)), "{line} with {max}");
        }
    }
}
