//! Which notes can be reached, which are found on disk and what moved.
use turbovault::config::{ServerConfig, VaultConfig, WriteBackend};
use turbovault::engine::{read_passage, OpenState};
use turbovault::error::Error;
use turbovault::manager::{normalize_path, OnDisk, Precondition, VaultManager};
use turbovault::paths::{extension_of, join_path, path_from, stem_of};
use turbovault::reconcile::{
    collapse_drained, find_moved, gate_sweeps, relative_key, sweep_for_external_changes,
    sync_action, with_origin, without_claimed_paths, CacheRecord, CommitOrigin, DrainedCommit,
    NoteCache, PathChange, ReconcileState, SyncAction, WriteClaims, RECONCILE_MAX_INTERVAL,
    RECONCILE_MIN_INTERVAL,
};
use turbovault::scan::{
    is_note, stable_fingerprint, DirEntry, EntryKind, FileFingerprint, ScannedNote, Visit, Walk,
};

const VAULT: &str = "/no-such-directory-for-tests/vault";

fn create_test_config() -> ServerConfig {
    let mut config = ServerConfig::new();
    config.vaults.push(VaultConfig::builder("test", VAULT).as_default().build().unwrap());
    config
}

fn manager() -> VaultManager {
    VaultManager::new(create_test_config()).unwrap()
}

#[test]
fn reconcile_interval_scales_with_the_last_pass() {
    let mut state = ReconcileState::new();
    assert!(state.is_due(0), "the first gated call must always sweep");

    state.record(200_000, 1_000);
    assert_eq!(state.interval(), RECONCILE_MIN_INTERVAL);
    assert!(!state.is_due(1_000), "a pass just ran");

    state.record(40_000_000, 1_000);
    assert_eq!(state.interval(), 800_000_000);

    state.record(10_000_000_000, 1_000);
    assert_eq!(state.interval(), RECONCILE_MAX_INTERVAL);
}

#[test]
fn the_gate_debounces_repeated_calls() {
    let mut state = ReconcileState::new();
    assert!(gate_sweeps(true, &state, 5));
    state.record(1_000, 5);
    assert!(!gate_sweeps(true, &state, 5 + RECONCILE_MIN_INTERVAL - 1));
    assert!(gate_sweeps(true, &state, 5 + RECONCILE_MIN_INTERVAL));
}

#[test]
fn reconciliation_can_be_turned_off() {
    assert!(!gate_sweeps(false, &ReconcileState::new(), 0));
}

#[test]
fn test_vault_path() {
    let manager = manager();
    assert_eq!(manager.vault_path(), VAULT);
    assert_eq!(manager.vault_name(), "test");
    assert_eq!(manager.write_backend(), WriteBackend::Direct);
    assert!(VaultManager::new(ServerConfig::new()).is_err());
}

#[test]
fn protected_directories_are_unreachable_through_the_note_api() {
    let manager = manager();
    for path in [
        ".obsidian/plugins/tasks/main.js",
        ".git/hooks/post-commit",
        ".turbovault/audit/operations.jsonl",
        "node_modules/pkg/index.js",
        "notes/.obsidian/nested.md",
    ] {
        let error = manager.resolve_path(path, &None).unwrap_err();
        assert!(
            matches!(error, Error::ProtectedPath { .. }),
            "{path} should be refused, got {error:?}"
        );
    }
    manager
        .resolve_path_bypassing_policy(".obsidian/app.json", &None)
        .expect("capability-gated resolution stays available");
    assert!(matches!(
        manager.resolve_path_bypassing_policy("../escape.md", &None).unwrap_err(),
        Error::PathTraversalAttempt { .. }
    ));
}

#[test]
fn a_detour_does_not_reach_a_protected_directory() {
    let manager = manager();
    let error = manager.resolve_note("notes/../.git/config", None, &None).unwrap_err();
    assert!(matches!(error, Error::ProtectedPath { component, .. } if component == ".git"));
    assert!(manager.resolve_note("notes/./a.md", None, &None).is_ok());
    assert!(matches!(
        manager.resolve_within_vault("a.md", Some(true), &None).unwrap_err(),
        Error::PathTraversalAttempt { .. }
    ));
}

#[test]
fn a_neighbour_with_a_longer_name_is_not_the_vault() {
    let manager = manager();
    let places = |root: &str, path: &str| {
        Some(OnDisk { root: root.to_string(), path: path.to_string() })
    };
    let outside = places("/tmp/v", "/tmp/v2/x.md");
    for leaves in [None, Some(false)] {
        assert!(matches!(
            manager.resolve_note("x.md", leaves, &outside).unwrap_err(),
            Error::PathTraversalAttempt { .. }
        ));
    }
    assert!(matches!(
        manager.resolve_path("x.md", &outside).unwrap_err(),
        Error::PathTraversalAttempt { .. }
    ));
    let inside = places("/tmp/v", "/tmp/v/x.md");
    assert!(manager.resolve_note("/linked/x.md", Some(false), &inside).is_ok());
    assert!(manager.resolve_note("/linked/x.md", Some(true), &inside).is_err());
    assert!(manager.resolve_note("/linked/x.md", Some(false), &None).is_err());
}

#[test]
fn excluded_subtrees_are_unreachable() {
    let mut config = ServerConfig::new();
    config.vaults.push(
        VaultConfig::builder("test", VAULT)
            .as_default()
            .excluded_subtrees(vec!["Agents/private".to_string()])
            .build()
            .unwrap(),
    );
    let manager = VaultManager::new(config).unwrap();
    assert!(manager.resolve_path("Agents/private/x.md", &None).is_err());
    assert!(manager.resolve_path("Agents/public/x.md", &None).is_ok());
    assert!(manager.is_path_excluded("Agents/private/x.md"));
    assert_eq!(manager.excluded_subtrees(), &vec!["Agents/private".to_string()]);
}

#[test]
fn max_file_size_is_enforced_on_reads_and_writes() {
    let mut config = create_test_config();
    config.max_file_size = 32;
    let manager = VaultManager::new(config).unwrap();
    let path = format!("{VAULT}/big.md");
    let error = manager.plan_write(&path, 64).unwrap_err();
    assert!(matches!(error, Error::FileTooLarge { size: 64, max: 32, .. }), "{error:?}");
    let error = manager.ensure_size_within_limit(&path, Some(64)).unwrap_err();
    assert!(matches!(error, Error::FileTooLarge { .. }), "{error:?}");
    assert!(manager.ensure_size_within_limit(&path, None).is_ok());
    assert_eq!(manager.plan_write(&format!("{VAULT}/small.md"), 4).unwrap(), "small.md");
}

#[test]
fn test_path_traversal_prevention() {
    assert!(manager().resolve_path("../../../etc/passwd", &None).is_err());
}

#[test]
fn test_resolve_path_absolute() {
    assert!(manager().resolve_path(&format!("{VAULT}/test.md"), &None).is_ok());
}

#[test]
fn test_resolve_path_relative() {
    assert_eq!(manager().resolve_path("test.md", &None).unwrap(), format!("{VAULT}/test.md"));
}

#[test]
fn test_resolve_path_traversal_prevention() {
    let manager = manager();
    let result = manager.resolve_path("../../tmp/evil.md", &None);
    assert!(result.is_err(), "Path traversal should be prevented");
    let result2 = manager.resolve_path("../../../etc/passwd", &None);
    assert!(result2.is_err(), "Path traversal should be prevented");
}

#[test]
fn a_stale_hash_stops_an_edit() {
    let manager = manager();
    let expect = |hash: &str| Precondition::ExpectBlob(hash.to_string());
    assert!(manager.check_edit(&expect("h"), "h").is_ok());
    assert!(matches!(
        manager.check_edit(&expect("stale"), "h").unwrap_err(),
        Error::ConcurrencyError { .. }
    ));
    assert!(manager.check_edit(&Precondition::Blind, "h").is_ok());
}

#[test]
fn a_passage_of_a_protected_note_is_refused() {
    let state = OpenState { stale: false, incompatible: false };
    let refused = read_passage(&manager(), &None, &None, &state, ".git/a.md", "x#0", "h", 0, 10);
    assert!(refused.is_err());
}

#[test]
fn a_note_is_the_same_in_all_spellings_of_its_path() {
    let print = |size: u64| FileFingerprint { size_bytes: size, modified: Some(1) };
    let mut cache = NoteCache::new();
    cache.remember("/v//a.md", Some(print(1)));
    assert_eq!(cache.get("/v/./a.md"), Some(Some(print(1))));
    cache.remember("/v/a.md", Some(print(2)));
    assert_eq!(cache.len(), 1);
    let notes = vec![ScannedNote { path: "/v/a.md".to_string(), size_bytes: 2, modified: Some(1) }];
    assert!(cache.sweep(&notes, "/v", &WriteClaims::new()).is_empty());
    let records = vec![CacheRecord { path: "/v//a.md".to_string(), observed: Some(print(2)) }];
    assert!(find_moved(&records, &notes).is_empty());
    cache.evict("/v/a.md/");
    assert_eq!(cache.get("/v//a.md"), None);
}

#[test]
fn paths_are_joined_and_written_from_their_base() {
    assert_eq!(join_path("/v", "a/b.md"), "/v/a/b.md");
    assert_eq!(path_from("/v/a/b.md", "/v"), "a/b.md");
    assert_eq!(path_from(&join_path("/v/", "a//b.md"), "/v"), "a//b.md");
    assert_eq!(path_from("//v//./a/./b//", "/v/"), "a/./b");
    assert_eq!(path_from("/v/", "/v"), "");
    assert_eq!(path_from("/v/a/", ""), "/v/a");
    assert_eq!(path_from("///", ""), "/");
    assert_eq!(path_from("./a/.", ""), "./a");
    assert_eq!(path_from("/vault/a", "/v"), "/vault/a");
    assert_eq!(extension_of("a/b.tar.gz").as_deref(), Some("gz"));
    assert_eq!(stem_of(".hidden").as_deref(), Some(".hidden"));
    assert_eq!(normalize_path("/a/./b/../c").len(), 3);
    assert_eq!(manager().relative_path(&format!("{VAULT}/x/y.md")), "x/y.md");
}

fn entry(name: &str, kind: EntryKind) -> DirEntry {
    DirEntry {
        path: format!("{VAULT}/{name}"),
        name: Some(name.to_string()),
        kind,
        metadata: Some((10, Some(5))),
    }
}

fn walk(entries: Vec<DirEntry>) -> (Vec<String>, Vec<String>) {
    let manager = manager();
    let mut walk = Walk::start(VAULT);
    assert_eq!(walk.next().as_deref(), Some(VAULT));
    walk.enter(manager.scan_spec(), &entries);
    let notes = walk.notes.iter().map(|n| n.path.clone()).collect();
    (walk.pending, notes)
}

#[test]
fn test_scan_vault_recurses_subdirectories() {
    let (pending, notes) = walk(vec![entry("a", EntryKind::Directory)]);
    assert_eq!(pending, vec![format!("{VAULT}/a")]);
    assert!(notes.is_empty());
}

#[test]
fn test_scan_vault_skips_disallowed_extensions() {
    let (_, notes) = walk(vec![
        entry("note.md", EntryKind::File),
        entry("image.png", EntryKind::File),
        entry("data.json", EntryKind::File),
    ]);
    assert_eq!(notes, vec![format!("{VAULT}/note.md")]);
}

#[test]
fn test_scan_vault_admits_uppercase_extensions() {
    let (_, notes) = walk(vec![entry("Shouty.MD", EntryKind::File)]);
    assert_eq!(notes.len(), 1, "expected Shouty.MD to be discovered");
}

#[test]
fn test_scan_vault_does_not_follow_symlinks() {
    let (pending, notes) = walk(vec![
        entry("real.md", EntryKind::File),
        entry("loop", EntryKind::Other),
        entry("escape.md", EntryKind::Other),
    ]);
    assert!(pending.is_empty());
    assert_eq!(notes, vec![format!("{VAULT}/real.md")]);
}

#[test]
fn test_scan_vault_skips_the_protected_directory() {
    let (pending, notes) =
        walk(vec![entry("real.md", EntryKind::File), entry(".turbovault", EntryKind::Directory)]);
    assert!(pending.is_empty());
    assert_eq!(notes, vec![format!("{VAULT}/real.md")]);
}

#[test]
fn a_scan_of_a_tree_finds_each_admitted_file_once() {
    let manager = manager();
    let tree = |dir: &str| match dir.strip_prefix(VAULT).unwrap() {
        "" => vec![
            entry("top.md", EntryKind::File),
            entry("a", EntryKind::Directory),
            entry(".git", EntryKind::Directory),
            entry("b", EntryKind::Directory),
        ],
        "/a" => vec![entry("a/one.md", EntryKind::File), entry("a/deep", EntryKind::Directory)],
        "/a/deep" => vec![entry("a/deep/two.md", EntryKind::File)],
        "/b" => vec![entry("b/three.md", EntryKind::File), entry("b/x.png", EntryKind::File)],
        "/.git" => vec![entry(".git/four.md", EntryKind::File)],
        _ => Vec::new(),
    };
    let mut walk = Walk::start(VAULT);
    while let Some(dir) = walk.next() {
        let mut entries = tree(&dir);
        for entry in &mut entries {
            entry.name = entry.path.rsplit('/').next().map(str::to_string);
        }
        walk.enter(manager.scan_spec(), &entries);
    }
    let mut found: Vec<String> = walk.notes.iter().map(|n| n.path.clone()).collect();
    found.sort();
    let wanted = ["a/deep/two.md", "a/one.md", "b/three.md", "top.md"];
    assert_eq!(found, wanted.map(|path| format!("{VAULT}/{path}")));
}

#[test]
fn a_scan_can_ask_for_other_extensions() {
    let manager = manager();
    let spec = manager.scan_spec().for_extensions(&vec!["pdf".to_string()], 9);
    assert!(spec.admits_extension("PDF"));
    assert!(!spec.admits_extension("md"));
    assert_eq!(spec.visit(&entry("a.pdf", EntryKind::File)), Visit::Skip);
    let roomy = manager.scan_spec().for_extensions(&vec!["pdf".to_string()], 10);
    assert_eq!(roomy.visit(&entry("a.pdf", EntryKind::File)), Visit::List);
}

fn print(size: u64) -> FileFingerprint {
    FileFingerprint { size_bytes: size, modified: Some(1) }
}

fn scanned(name: &str, size: u64) -> ScannedNote {
    ScannedNote { path: format!("{VAULT}/{name}"), size_bytes: size, modified: Some(1) }
}

fn cached(name: &str, size: u64) -> CacheRecord {
    CacheRecord { path: format!("{VAULT}/{name}"), observed: Some(print(size)) }
}

fn shown(changes: &[PathChange]) -> Vec<(String, bool)> {
    changes.iter().map(|c| (c.path.clone(), c.present)).collect()
}

#[test]
fn reconcile_discovers_a_note_created_outside_the_process() {
    let moved = find_moved(&vec![cached("seed.md", 1)], &vec![scanned("seed.md", 1), scanned("new.md", 1)]);
    assert_eq!(shown(&moved), vec![(format!("{VAULT}/new.md"), true)]);
}

#[test]
fn reconcile_applies_an_edit_made_outside_the_process() {
    let moved = find_moved(&vec![cached("a.md", 1)], &vec![scanned("a.md", 2)]);
    assert_eq!(shown(&moved), vec![(format!("{VAULT}/a.md"), true)]);
}

#[test]
fn reconcile_drops_a_note_deleted_outside_the_process() {
    let moved = find_moved(&vec![cached("a.md", 1)], &Vec::new());
    assert_eq!(shown(&moved), vec![(format!("{VAULT}/a.md"), false)]);
}

#[test]
fn reconcile_is_silent_when_nothing_moved() {
    let moved = find_moved(&vec![cached("a.md", 1)], &vec![scanned("a.md", 1)]);
    assert!(moved.is_empty());
}

#[test]
fn reconcile_does_not_republish_files_it_does_not_model() {
    let moved = find_moved(&Vec::new(), &vec![scanned("readme.txt", 1)]);
    assert!(moved.is_empty());
    assert!(is_note("a/B.MD"));
    assert!(!is_note("a/b.txt"));
}

#[test]
fn claimed_paths_are_left_to_their_writer() {
    let mut claims = WriteClaims::new();
    let mine = vec!["a.md".to_string()];
    claims.claim(&mine);
    claims.claim(&mine);
    claims.release(&mine);
    assert!(claims.holds("a.md"));
    let notes = vec![scanned("a.md", 1), scanned("b.md", 1)];
    let swept = sweep_for_external_changes(&Vec::new(), &notes, VAULT, &claims);
    assert_eq!(swept.len(), 1);
    claims.release(&mine);
    assert!(!claims.holds("a.md"));
    let all = find_moved(&Vec::new(), &notes);
    assert_eq!(without_claimed_paths(&all, VAULT, &claims).len(), 2);
    assert_eq!(relative_key(&format!("{VAULT}/d/a.md"), VAULT).as_deref(), Some("d/a.md"));
}

#[test]
fn reconcile_reports_external_origin() {
    let changes = vec![PathChange { path: "a.md".to_string(), present: true }];
    let reported = with_origin(&changes, CommitOrigin::External);
    assert_eq!(reported[0].origin, CommitOrigin::External);
    assert_eq!(reported[0].path, "a.md");
}

#[test]
fn drained_commits_keep_their_order() {
    let commit = |origin: CommitOrigin, present: bool| DrainedCommit {
        origin,
        changes: vec![PathChange { path: "a.md".to_string(), present }],
    };
    let last = collapse_drained(&vec![
        commit(CommitOrigin::Local, true),
        commit(CommitOrigin::External, false),
    ]);
    assert_eq!(last.len(), 2);
    assert!(last[0].present && last[0].origin == CommitOrigin::Local);
    assert!(!last[1].present && last[1].origin == CommitOrigin::External);
}

#[test]
fn test_sync_index_skips_stale_removal_when_path_recreated() {
    assert_eq!(sync_action("a.md", false, true), SyncAction::Ignore);
    assert_eq!(sync_action("a.md", false, false), SyncAction::Evict);
    assert_eq!(sync_action("a.md", true, true), SyncAction::Parse);
    assert_eq!(sync_action("a.txt", true, true), SyncAction::Ignore);
}

#[test]
fn a_file_that_changes_while_it_is_read_has_no_fingerprint() {
    assert_eq!(stable_fingerprint(Some(print(1)), Some(print(1))), Some(print(1)));
    assert_eq!(stable_fingerprint(Some(print(1)), Some(print(2))), None);
    assert_eq!(stable_fingerprint(None, None), None);
    assert_eq!(scanned("a.md", 3).fingerprint(), print(3));
    assert_eq!(
        ScannedNote { path: String::new(), size_bytes: 0, modified: Some(4_999_999) }.modified_ms(),
        Some(4)
    );
}

#[test]
fn a_swept_cache_agrees_with_the_disk() {
    let full = |name: &str| format!("{VAULT}/{name}");
    let mut cache = NoteCache::new();
    cache.remember(&full("same.md"), Some(print(1)));
    cache.remember(&full("edited.md"), Some(print(1)));
    cache.remember(&full("unsure.md"), None);
    cache.remember(&full("gone.md"), Some(print(1)));
    cache.remember(&full("gone.md"), Some(print(2)));
    assert_eq!(cache.len(), 4);
    assert_eq!(cache.get(&full("gone.md")), Some(Some(print(2))));

    let disk = vec![
        scanned("same.md", 1),
        scanned("edited.md", 2),
        scanned("unsure.md", 3),
        scanned("new.md", 4),
        scanned("picture.png", 5),
    ];
    let claims = WriteClaims::new();
    for change in cache.sweep(&disk, VAULT, &claims) {
        let path = full(&change.path);
        match disk.iter().find(|note| note.path == path) {
            Some(note) if change.present => cache.remember(&path, Some(note.fingerprint())),
            _ => cache.evict(&path),
        }
    }
    assert_eq!(cache.len(), 4);
    assert_eq!(cache.get(&full("edited.md")), Some(Some(print(2))));
    assert_eq!(cache.get(&full("unsure.md")), Some(Some(print(3))));
    assert_eq!(cache.get(&full("new.md")), Some(Some(print(4))));
    assert_eq!(cache.get(&full("gone.md")), None);
    assert!(cache.sweep(&disk, VAULT, &claims).is_empty());
}
