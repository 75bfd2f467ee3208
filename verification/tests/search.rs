//! Full-text search.
use tantivy::collector::TopDocs;
use tantivy::query::QueryParser;
use tantivy::schema::{Schema, TEXT};
use tantivy::TantivyDocument;
use turbovault::error::Error;
use turbovault::search::{
    after_first_parse, after_retry, extract_keywords, extract_snippet, is_stopword,
    parse_query_resilient, preview_of, sanitize_query_text, QueryStep,
};
use turbovault::search_index::{
    document_of, is_markdown_path, plan_build, plan_changes, ChangedNote, IndexOp, NoteSource,
};
use turbovault::search_results::{
    build_results, fetch_limit, Candidate, FoundNote, SearchFilter, SearchQuery,
};
use turbovault::text_index::SearchEngine;

#[test]
fn test_sanitize_query_text_keeps_natural_language_terms() {
    assert_eq!(sanitize_query_text("dad's birthday").as_deref(), Some("dad s birthday"));
    assert_eq!(
        sanitize_query_text("what's my dad's birthday").as_deref(),
        Some("what s my dad s birthday")
    );
    assert_eq!(sanitize_query_text("unbalanced \"quote").as_deref(), Some("unbalanced quote"));
    assert_eq!(sanitize_query_text("already clean").as_deref(), Some("already clean"));
}

#[test]
fn test_sanitize_query_text_rejects_termless_input() {
    assert_eq!(sanitize_query_text("''"), None);
    assert_eq!(sanitize_query_text("   "), None);
    assert_eq!(sanitize_query_text("\\"), None);
}

fn parser() -> QueryParser {
    let mut schema_builder = Schema::builder();
    schema_builder.add_text_field("title", TEXT);
    schema_builder.add_text_field("content", TEXT);
    let schema = schema_builder.build();
    let index = tantivy::Index::create_in_ram(schema.clone());
    let title = schema.get_field("title").unwrap();
    let content = schema.get_field("content").unwrap();
    QueryParser::for_index(&index, vec![title, content])
}

#[test]
fn test_parse_query_resilient_recovers_from_apostrophe() {
    let parser = parser();
    assert!(parser.parse_query("dad's birthday").is_err());
    assert!(parse_query_resilient(&parser, "dad's birthday").is_ok());
    assert!(parse_query_resilient(&parser, "dad birthday").is_ok());
    assert!(parse_query_resilient(&parser, "''").is_ok());
}

#[test]
fn the_text_that_is_searched_for_is_the_one_that_parses() {
    let parser = parser();
    let resolve = |raw: &str| parse_query_resilient(&parser, raw);
    assert!(matches!(resolve("dad's birthday"), Ok(Some(t)) if t == "dad s birthday"));
    assert!(matches!(resolve("dad birthday"), Ok(Some(t)) if t == "dad birthday"));
    assert!(matches!(resolve("''"), Ok(Some(t)) if t == "''"));
    assert!(matches!(resolve("'"), Ok(None)));
    assert!(matches!(
        resolve("-dad"),
        Err(Error::Config(m)) if m == "Failed to parse query: Invalid query: Only excluding terms given"
    ));
}

#[test]
fn a_rejected_query_is_tried_once_more() {
    assert!(matches!(after_first_parse("a b", false), QueryStep::Search(t) if t == "a b"));
    assert!(matches!(after_first_parse("a:b", true), QueryStep::Retry(t) if t == "a b"));
    assert!(matches!(after_first_parse("!", true), QueryStep::Nothing));
    assert!(matches!(after_retry("a b".to_string(), "e1", &None), Ok(Some(t)) if t == "a b"));
    assert!(matches!(
        after_retry("a b".to_string(), "e1", &Some("e2".to_string())),
        Err(Error::Config(m)) if m == "Failed to parse query: e1"
    ));
}

#[test]
fn rewriting_a_query_twice_changes_nothing() {
    let once = sanitize_query_text("(a)\t[b]  c\u{a0}d").unwrap();
    assert_eq!(once, "a b c d");
    assert_eq!(sanitize_query_text(&once), Some(once));
}

#[test]
fn test_extract_keywords() {
    let content = "The quick brown fox jumps over the lazy dog";
    let keywords = extract_keywords(content);
    assert!(!keywords.is_empty());
    assert!(keywords.iter().any(|k| k == "quick" || k == "brown"));
}

#[test]
fn test_is_stopword() {
    assert!(is_stopword("the"));
    assert!(is_stopword("and"));
    assert!(!is_stopword("rust"));
}

#[test]
fn test_extract_snippet() {
    let content = "The quick brown fox jumps over the lazy dog";
    let snippet = extract_snippet(content, "fox");
    assert!(snippet.contains("fox"));
}

#[test]
fn test_extract_snippet_no_match() {
    let content = "The quick brown fox";
    let snippet = extract_snippet(content, "xyz");
    assert!(!snippet.contains("xyz"));
}

#[test]
fn test_extract_snippet_wildcard() {
    let content = "First line\nSecond line";
    let snippet = extract_snippet(content, "*");
    assert!(snippet.contains("First"));
}

#[test]
fn test_extract_keywords_filters_short_words() {
    let content = "a b c defgh ijklmn";
    let keywords = extract_keywords(content);
    assert!(!keywords.iter().any(|k| k.len() <= 3));
}

#[test]
fn test_file_path_extension_check() {
    let paths = vec![
        "/vault/index.md",
        "/vault/test.MD",
        "/vault/readme.txt",
        "/vault/file.md.bak",
        "relative/path/note.md",
    ];
    let admitted: Vec<bool> = paths.iter().map(|p| is_markdown_path(p)).collect();
    assert_eq!(admitted, vec![true, true, false, false, true]);
}

#[test]
fn test_stopword_filtering_comprehensive() {
    let stopwords = vec!["the", "and", "or", "is", "are"];
    let content_words = vec!["testing", "capabilities", "search", "index"];

    for word in stopwords {
        assert!(is_stopword(word), "Should recognize '{}' as stopword", word);
    }

    for word in content_words {
        assert!(!is_stopword(word), "Should NOT recognize '{}' as stopword", word);
    }
}

#[test]
fn test_snippet_extraction_edge_cases() {
    let snippet = extract_snippet("", "search");
    assert!(snippet.is_empty() || !snippet.contains("search"));

    let short = "short";
    let snippet = extract_snippet(short, "short");
    assert!(snippet.contains("short"));

    let multi = "test test test another test";
    let snippet = extract_snippet(multi, "test");
    assert!(snippet.contains("test"));
}

#[test]
fn test_file_filtering_logic() {
    let test_paths = vec![
        ("index.md", true),
        ("test.MD", true),
        ("README.txt", false),
        (".md", true),
        ("file.md.backup", false),
    ];
    for (path, should_index) in test_paths {
        assert_eq!(is_markdown_path(path), should_index, "{path}");
    }
}

#[test]
fn keywords_are_the_first_ten_long_words_in_lower_case() {
    let content = "With ABOUT Alpha abc é\u{e9}t w1w1 w2w2 w3w3 w4w4 w5w5 w6w6 w7w7 w8w8 w9w9";
    assert_eq!(
        extract_keywords(content),
        vec!["alpha", "\u{e9}\u{e9}t", "w1w1", "w2w2", "w3w3", "w4w4", "w5w5", "w6w6", "w7w7", "w8w8"]
    );
}

#[test]
fn snippets_hold_fifty_bytes_on_each_side() {
    let content = format!("{}NEEDLE{}", "a".repeat(60), "b".repeat(60));
    let wanted = format!("...{}NEEDLE{}...", "a".repeat(50), "b".repeat(50));
    assert_eq!(extract_snippet(&content, "needle"), wanted);
    assert_eq!(extract_snippet("one\r\ntwo", ""), "one");
    assert_eq!(extract_snippet("x  ", "X"), "...x...");
}

#[test]
fn snippets_never_split_a_character() {
    let content = format!("{}x{}", "\u{e9}".repeat(30), "\u{1f389}".repeat(20));
    let wanted = format!("...{}x{}...", "\u{e9}".repeat(25), "\u{1f389}".repeat(13));
    assert_eq!(extract_snippet(&content, "X"), wanted);
}

#[test]
fn a_match_is_placed_by_the_lower_case_text() {
    let content = format!("{}needle{}", "\u{130}".repeat(40), "c".repeat(60));
    let snippet = extract_snippet(&content, "needle");
    assert_eq!(snippet, format!("...{}needle{}...", "\u{130}".repeat(5), "c".repeat(60)));
}

#[test]
fn previews_hold_two_hundred_characters() {
    assert_eq!(preview_of("a\nb"), "a\nb");
    assert_eq!(preview_of(&"\u{e9}".repeat(300)), "\u{e9}".repeat(200));
}

fn note(plain: &str, backlinks: &[&str], frontmatter: Option<&[(&str, &str)]>) -> Option<FoundNote> {
    Some(FoundNote {
        frontmatter: frontmatter
            .map(|f| f.iter().map(|(k, v)| (k.to_string(), v.to_string())).collect()),
        plain: plain.to_string(),
        links: vec!["target".to_string()],
        backlinks: backlinks.iter().map(|b| b.to_string()).collect(),
    })
}

fn candidates() -> Vec<Candidate> {
    let candidate = |path: &str, tags: &str, note: Option<FoundNote>| Candidate {
        path: path.to_string(),
        title: "T".to_string(),
        tags: tags.to_string(),
        note,
    };
    vec![
        candidate("a.md", "x y", note("alpha one", &["b.md"], Some(&[("type", "\"book\"")]))),
        candidate("gone.md", "x", None),
        candidate("b.md", "y", note("alpha two", &[], None)),
        candidate("c.md", "x", note("alpha three", &["a.md", "b.md"], Some(&[("type", "\"film\"")]))),
    ]
}

fn found(query: SearchQuery) -> Vec<String> {
    let (text, filter, limit) = query.build();
    build_results(&candidates(), &filter, &text, limit).into_iter().map(|r| r.path).collect()
}

#[test]
fn results_are_the_readable_candidates_in_order() {
    assert_eq!(found(SearchQuery::new("alpha")), vec!["a.md", "b.md", "c.md"]);
    assert_eq!(found(SearchQuery::new("alpha").limit(2)), vec!["a.md", "b.md"]);
    let all = build_results(&candidates(), &SearchFilter::default(), "alpha", 10);
    assert_eq!(all[2].rank, 3);
    assert_eq!(all[2].backlink_count, 2);
    assert_eq!(all[0].word_count, 2);
    assert_eq!(all[0].char_count, 9);
    assert_eq!(all[0].tags, vec!["x", "y"]);
    assert_eq!(all[0].outgoing_links, vec!["target"]);
    assert_eq!(all[0].snippet, "...alpha one...");
    assert_eq!(all[0].preview, "alpha one");
}

#[test]
fn each_filter_leaves_out_what_it_says() {
    let texts = |v: &[&str]| v.iter().map(|s| s.to_string()).collect::<Vec<String>>();
    assert_eq!(found(SearchQuery::for_tags(texts(&["x"]))), vec!["a.md", "c.md"]);
    assert_eq!(found(SearchQuery::new("q").exclude(texts(&["b.md"]))), vec!["a.md", "c.md"]);
    assert_eq!(
        found(SearchQuery::new("q").with_backlinks_from(texts(&["a.md"]))),
        vec!["c.md"]
    );
    assert_eq!(found(SearchQuery::for_frontmatter("type", "book")), vec!["a.md"]);
    assert_eq!(
        found(
            SearchQuery::new("q")
                .with_frontmatter("type".to_string(), "film".to_string())
                .with_frontmatter("author".to_string(), "x".to_string())
        ),
        Vec::<String>::new()
    );
}

#[test]
fn requests_carry_their_limits() {
    assert_eq!(SearchQuery::new("q").build().2, 10);
    assert_eq!(SearchQuery::for_keywords("q").build().2, 10);
    assert_eq!(SearchQuery::for_tags(Vec::new()).build().2, 100);
    let (query, filter, limit) =
        SearchQuery::for_related("me.md", "the Quick brown fox jumps", 5).build();
    assert_eq!(query, "quick brown jumps");
    assert_eq!(filter.exclude_paths, Some(vec!["me.md".to_string()]));
    assert_eq!(limit, 5);
    assert_eq!(fetch_limit(5), 10);
}

fn source(title: Option<&str>, heading: Option<&str>) -> NoteSource {
    NoteSource {
        title: title.map(|t| t.to_string()),
        first_heading: heading.map(|t| t.to_string()),
        tags: Some(vec!["a".to_string(), "b".to_string()]),
        plain: "text".to_string(),
    }
}

#[test]
fn a_document_is_titled_by_front_matter_heading_or_file() {
    assert_eq!(document_of("d/n.md", &source(Some("T"), Some("H"))).title, "T");
    assert_eq!(document_of("d/n.md", &source(None, Some("H"))).title, "H");
    let document = document_of("d/n.md", &source(None, None));
    assert_eq!(document.title, "n");
    assert_eq!(document.tags, "a b");
    assert_eq!(document.path, "d/n.md");
    assert_eq!(document.content, "text");
}

#[test]
fn a_change_replaces_its_document() {
    let change = |path: &str, present: bool, read: bool| ChangedNote {
        path: path.to_string(),
        present,
        source: if read { Some(source(None, None)) } else { None },
    };
    let ops = plan_changes(&vec![
        change("s.md", true, true),
        change("note.txt", true, true),
        change("gone.md", false, true),
        change("bad.md", true, false),
    ]);
    let shown: Vec<String> = ops
        .iter()
        .map(|op| match op {
            IndexOp::Delete(path) => format!("-{path}"),
            IndexOp::Insert(document) => format!("+{}", document.path),
        })
        .collect();
    assert_eq!(shown, vec!["-s.md", "+s.md", "-note.txt", "-gone.md", "-bad.md"]);
    let built = plan_build(&vec![change("s.md", true, true), change("note.txt", true, true)]);
    assert_eq!(built.len(), 1);
    assert_eq!(built[0].path, "s.md");
}

fn indexed(path: &str, title: &str, plain: &str) -> ChangedNote {
    let source = NoteSource {
        title: Some(title.to_string()),
        first_heading: None,
        tags: Some(vec!["kept".to_string(), "tags".to_string()]),
        plain: plain.to_string(),
    };
    ChangedNote { path: path.to_string(), present: true, source: Some(source) }
}

fn paths_of(engine: &SearchEngine, query: &str) -> Vec<String> {
    engine.find(query, 10).unwrap().into_iter().map(|found| found.path).collect()
}

#[test]
fn apply_changes_replaces_edited_doc_without_duplicate() {
    let first = indexed("s.md", "S", "S alphaword content here");
    let mut engine = SearchEngine::new(&vec![first]).unwrap();
    assert_eq!(
        paths_of(&engine, "alphaword").len(),
        1,
        "alphaword indexed by the initial build"
    );
    engine.apply_changes(&vec![indexed("s.md", "S", "S betaword content here")]).unwrap();
    assert_eq!(
        paths_of(&engine, "betaword").len(),
        1,
        "new term findable after incremental reindex"
    );
    assert_eq!(paths_of(&engine, "alphaword").len(), 0, "old doc replaced, not duplicated");
}

#[test]
fn apply_changes_skips_non_markdown_paths() {
    let mut engine = SearchEngine::new(&Vec::new()).unwrap();
    engine.apply_changes(&vec![indexed("note.txt", "T", "T gammaword content")]).unwrap();
    assert_eq!(
        paths_of(&engine, "gammaword").len(),
        0,
        "non-.md path not indexed incrementally, matching cold-rebuild behavior"
    );
}

#[test]
fn test_fuzzy_without_prefix_excludes_unrelated_starts_with_matches() {
    let notes = [
        ("birthdays.md", "Birthdays", "Mom 6/17/1952 Dad Sep 10 1956"),
        ("advisor.md", "Advisor", "advisor planning workflow notes"),
        ("adobo.md", "Adobo", "adobo salsa recipe"),
    ];

    let mut schema_builder = Schema::builder();
    schema_builder.add_text_field("title", TEXT);
    schema_builder.add_text_field("content", TEXT);
    let schema = schema_builder.build();
    let index = tantivy::Index::create_in_ram(schema.clone());
    let title = schema.get_field("title").unwrap();
    let content = schema.get_field("content").unwrap();

    let mut writer = index.writer(15_000_000).unwrap();
    for (_, name, text) in notes {
        let mut document = TantivyDocument::default();
        document.add_text(title, name);
        document.add_text(content, text);
        writer.add_document(document).unwrap();
    }
    writer.commit().unwrap();

    let searcher = index.reader().unwrap().searcher();
    let found_with = |prefix: bool| {
        let mut parser = QueryParser::for_index(&index, vec![title, content]);
        parser.set_field_fuzzy(title, prefix, 1, false);
        parser.set_field_fuzzy(content, prefix, 1, false);
        let query = parser.parse_query("dad").unwrap();
        searcher.search(&query, &TopDocs::with_limit(10).order_by_score()).unwrap()
    };
    let plain = found_with(false);
    assert_eq!(
        plain.len(),
        1,
        "fuzzy without prefix must match only the document containing 'dad'"
    );
    let prefix = found_with(true);
    assert!(
        prefix.len() > plain.len(),
        "prefix mode is expected to over-match; that is the defect being guarded against"
    );

    let files = notes.iter().map(|(path, name, text)| indexed(path, name, text)).collect();
    let engine = SearchEngine::new(&files).unwrap();
    assert_eq!(
        paths_of(&engine, "dad"),
        vec!["birthdays.md"],
        "fuzzy without prefix must match only the document containing 'dad'"
    );
}

#[test]
fn words_that_name_no_field_are_not_looked_for_in_paths() {
    let engine = SearchEngine::new(&vec![indexed("secret.md", "Title", "content")]).unwrap();
    assert!(paths_of(&engine, "secret").is_empty());
    assert_eq!(paths_of(&engine, "path:secret.md"), vec!["secret.md"]);
    assert_eq!(paths_of(&engine, "kept"), vec!["secret.md"]);
}

#[test]
fn better_matches_come_first_and_the_limit_is_doubled() {
    let files = vec![
        indexed("plain.md", "Trees", "cherry"),
        indexed("named.md", "Cherry", "cherry"),
        indexed("other.md", "Cakes", "cherry pie"),
    ];
    let engine = SearchEngine::new(&files).unwrap();
    let found = engine.find("cherry", 1).unwrap();
    assert_eq!(found.len(), 2);
    assert_eq!(found[0].path, "named.md");
    assert!(f32::from_bits(found[0].score) > f32::from_bits(found[1].score));
    assert_eq!(engine.find("cherry", 2).unwrap().len(), 3);
}

#[test]
fn an_index_that_cannot_be_opened_is_reported() {
    let engine = SearchEngine::new(&Vec::new()).unwrap();
    let failed = engine.find_in(Err("no room".to_string()), "dad", 1);
    assert!(
        matches!(failed, Err(Error::Config(text)) if text == "Failed to create reader: no room")
    );
}

#[test]
fn test_fuzzy_search_query_building() {
    let engine = SearchEngine::new(&vec![indexed("a.md", "Gardening", "tulips")]).unwrap();
    assert_eq!(paths_of(&engine, "gardenin"), vec!["a.md"]);
    assert_eq!(paths_of(&engine, "tulisp"), vec!["a.md"]);
    assert!(paths_of(&engine, "tulxxx").is_empty());
}

#[test]
fn found_documents_carry_what_was_stored() {
    let files = vec![indexed("a.md", "First", "apple"), indexed("b.md", "Second", "pear")];
    let mut engine = SearchEngine::new(&files).unwrap();
    let found = engine.find("pear", 1).unwrap();
    assert_eq!(found.len(), 1);
    assert_eq!(found[0].path, "b.md");
    assert_eq!(found[0].title, "Second");
    assert_eq!(found[0].tags, "kept tags");
    assert!(f32::from_bits(found[0].score) > 0.0);

    let gone = ChangedNote { path: "b.md".to_string(), present: false, source: None };
    engine.apply_changes(&vec![gone]).unwrap();
    assert!(paths_of(&engine, "pear").is_empty());
    assert_eq!(paths_of(&engine, "apple"), vec!["a.md"]);
    engine.apply_changes(&Vec::new()).unwrap();
    assert_eq!(paths_of(&engine, "apple"), vec!["a.md"]);
}

#[test]
fn queries_with_stray_syntax_still_find_notes() {
    let engine =
        SearchEngine::new(&vec![indexed("d.md", "Dates", "the birthday of dad")]).unwrap();
    assert_eq!(paths_of(&engine, "dad's birthday"), vec!["d.md"]);
    assert!(paths_of(&engine, "\"").is_empty());
    assert!(paths_of(&engine, "nofield:x").is_empty());
}
