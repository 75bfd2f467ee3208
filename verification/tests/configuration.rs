//! Server and vault settings, the vault registry and the project cache.
use std::str::FromStr;
use turbovault::cache::{
    current_timestamp, get_cache_dir, get_project_id, project_candidates, project_markers,
    project_root, VaultCache,
};
use turbovault::config::{
    DirectoryState, GitAuthor, GitMergeStrategy, ServerConfig, VaultConfig, VaultGitConfig,
    WriteBackend,
};
use turbovault::error::Error;
use turbovault::multi_vault::{MultiVaultManager, MAX_VAULTS};
use turbovault::paths::without_repeated_paths;
use turbovault::text::without_repeats;

#[test]
fn test_vault_config_builder() {
    let vault = VaultConfig::builder("main", "/tmp/main")
        .as_default()
        .reconcile_external_changes(true)
        .build();

    assert!(vault.is_ok());
    let v = vault.unwrap();
    assert_eq!(v.name, "main");
    assert!(v.is_default);
}

#[test]
fn test_server_config_validation() {
    let mut config = ServerConfig::new();
    config.vaults.clear();
    assert!(config.validate().is_err());
}

#[test]
fn excluded_subtrees_are_root_relative_and_reject_traversal() {
    let vault = VaultConfig::builder("main", "/tmp/main")
        .excluded_subtrees(vec!["Agents/private".to_string()])
        .build()
        .unwrap();
    assert_eq!(vault.excluded_subtrees.unwrap(), vec!["Agents/private".to_string()]);

    for invalid in ["../outside", "/absolute", "."] {
        let result =
            VaultConfig::builder("main", "/tmp/main").excluded_subtrees(vec![invalid.to_string()]);
        assert!(result.build().is_err());
    }
}

#[test]
fn vault_config_defaults_to_direct_backend_and_no_git() {
    let v = VaultConfig::builder("main", "/tmp/main").build().unwrap();
    assert_eq!(v.write_backend, WriteBackend::Direct);
    assert!(v.git.is_none());
}

#[test]
fn vault_config_builder_sets_git_backend() {
    let v = VaultConfig::builder("g", "/tmp/g")
        .write_backend(WriteBackend::Git)
        .git(VaultGitConfig {
            branch: Some("main".to_string()),
            author: Some(GitAuthor {
                name: "TurboVault".to_string(),
                email: "tv@localhost".to_string(),
            }),
            merge_strategy: GitMergeStrategy::FastForward,
            include_ignored: false,
            require_commit_message: false,
        })
        .build()
        .unwrap();
    assert_eq!(v.write_backend, WriteBackend::Git);
    let g = v.git.unwrap();
    assert_eq!(g.branch.as_deref(), Some("main"));
    assert_eq!(g.merge_strategy, GitMergeStrategy::FastForward);
    assert!(!g.include_ignored);
    assert_eq!(g.author.unwrap().email, "tv@localhost");
}

#[test]
fn git_settings_have_defaults() {
    let git = VaultGitConfig::default();
    assert_eq!(git.merge_strategy, GitMergeStrategy::MergeCommit);
    assert!(git.include_ignored);
    assert!(git.branch.is_none());
}

#[test]
fn backend_names_read_back() {
    assert_eq!(WriteBackend::Git.name(), "git");
    assert_eq!(WriteBackend::Direct.name(), "direct");
    assert_eq!(WriteBackend::parse("legacy").unwrap(), WriteBackend::Direct);
    assert_eq!(WriteBackend::parse("git").unwrap(), WriteBackend::Git);
    assert_eq!(WriteBackend::parse("direct").unwrap(), WriteBackend::Direct);
    assert!(matches!(
        WriteBackend::parse("GIT"),
        Err(Error::Config(m)) if m == "Unknown write_backend 'GIT' (expected 'direct' or 'git')"
    ));
    assert!(WriteBackend::from_str("svn").is_err());
}

#[test]
fn a_home_directory_is_written_out() {
    let plain = VaultConfig::builder("v", "/plain/path").build().unwrap();
    assert_eq!(plain.path, "/plain/path");
    let unknown = VaultConfig::builder("v", "/x/$SURELY_NOT_A_VARIABLE_HERE/y").build();
    assert_eq!(unknown.unwrap().path, "/x/$SURELY_NOT_A_VARIABLE_HERE/y");
    let kept = VaultConfig::builder("v", "~/notes").build_with(Some("/h/notes".to_string()));
    assert_eq!(kept.unwrap().path, "/h/notes");
}

#[test]
fn a_vault_needs_a_directory() {
    let vault = VaultConfig::builder("v", "/v").build().unwrap();
    assert!(vault.validate(&DirectoryState::Directory).is_ok());
    assert!(vault.validate(&DirectoryState::NotDirectory).is_err());
    assert!(vault.validate(&DirectoryState::CreateFailed("denied".to_string())).is_err());
}

fn create_test_vault(name: &str, is_default: bool) -> VaultConfig {
    VaultConfig {
        name: name.to_string(),
        path: format!("/tmp/{}", name),
        is_default,
        reconcile_external_changes: None,
        max_file_size: None,
        allowed_extensions: None,
        excluded_paths: None,
        excluded_subtrees: None,
        enable_caching: None,
        cache_ttl: None,
        template_dirs: None,
        allowed_operations: None,
        write_backend: WriteBackend::default(),
        git: None,
    }
}

fn create_test_config() -> ServerConfig {
    let mut config = ServerConfig::new();
    config.vaults = vec![create_test_vault("vault1", true), create_test_vault("vault2", false)];
    config
}

#[test]
fn a_server_has_one_default_vault() {
    let mut config = create_test_config();
    assert!(config.validate().is_ok());
    assert_eq!(config.default_vault().unwrap().name, "vault1");
    let there = || vec![DirectoryState::Directory, DirectoryState::Directory];
    assert!(config.validate_with(&there()).is_ok());
    let taken = vec![DirectoryState::Directory, DirectoryState::NotDirectory];
    assert!(matches!(
        config.validate_with(&taken),
        Err(Error::Config(m)) if m == "Vault path is not a directory: /tmp/vault2"
    ));
    config.vaults[1].is_default = true;
    assert!(config.validate().is_err());
    config.vaults[1].is_default = false;
    config.vaults[1].name = "vault1".to_string();
    assert!(matches!(config.validate(), Err(Error::Config(m)) if m == "Vault names must be unique"));
}

#[test]
fn test_multi_vault_manager_creation() {
    let config = create_test_config();
    let manager = MultiVaultManager::new(config);
    assert!(manager.is_ok());
}

#[test]
fn test_can_create_empty_vaults() {
    let config = ServerConfig::new();
    let manager = MultiVaultManager::new(config);
    assert!(manager.is_ok());
    let mgr = manager.unwrap();
    let default = mgr.get_active_vault();
    assert!(default.is_empty());
}

#[test]
fn test_get_active_vault() {
    let manager = MultiVaultManager::new(create_test_config()).unwrap();
    let active = manager.get_active_vault();
    assert_eq!(active, "vault1");
}

#[test]
fn test_set_active_vault() {
    let mut manager = MultiVaultManager::new(create_test_config()).unwrap();
    manager.set_active_vault("vault2").unwrap();
    assert_eq!(manager.get_active_vault(), "vault2");
}

#[test]
fn test_set_invalid_active_vault() {
    let mut manager = MultiVaultManager::new(create_test_config()).unwrap();
    let result = manager.set_active_vault("nonexistent");
    assert!(result.is_err());
}

#[test]
fn test_add_vault() {
    let mut manager = MultiVaultManager::new(create_test_config()).unwrap();
    manager.add_vault(create_test_vault("vault3", false)).unwrap();
    assert!(manager.vault_exists("vault3"));
}

#[test]
fn test_add_duplicate_vault_fails() {
    let mut manager = MultiVaultManager::new(create_test_config()).unwrap();
    let result = manager.add_vault(create_test_vault("vault1", false));
    assert!(result.is_err());
}

#[test]
fn test_remove_vault() {
    let mut manager = MultiVaultManager::new(create_test_config()).unwrap();
    manager.remove_vault("vault2").unwrap();
    assert!(!manager.vault_exists("vault2"));
}

#[test]
fn test_remove_default_vault_reassigns() {
    let mut manager = MultiVaultManager::new(create_test_config()).unwrap();
    assert_eq!(manager.get_active_vault(), "vault1");

    let result = manager.remove_vault("vault1");
    assert!(result.is_ok());
    assert!(!manager.vault_exists("vault1"));

    let new_default = manager.get_active_vault();
    assert_eq!(new_default, "vault2");
}

#[test]
fn test_list_vaults() {
    let manager = MultiVaultManager::new(create_test_config()).unwrap();
    let vaults = manager.list_vaults();
    assert_eq!(vaults.len(), 2);
    assert!(vaults.iter().any(|v| v.name == "vault1" && v.is_default));
    assert!(vaults.iter().any(|v| v.name == "vault2" && !v.is_default));
}

#[test]
fn list_vaults_surfaces_backend_and_require_commit_message() {
    let mut git_vault = create_test_vault("vault_git", false);
    git_vault.write_backend = WriteBackend::Git;
    git_vault.git = Some(VaultGitConfig { require_commit_message: true, ..Default::default() });
    let mut config = ServerConfig::new();
    config.vaults = vec![create_test_vault("vault1", true), git_vault];
    let manager = MultiVaultManager::new(config).unwrap();

    let vaults = manager.list_vaults();
    let direct = vaults.iter().find(|v| v.name == "vault1").unwrap();
    assert_eq!(direct.write_backend, "direct");
    assert!(!direct.require_commit_message, "direct backend never requires a commit message");

    let git = vaults.iter().find(|v| v.name == "vault_git").unwrap();
    assert_eq!(git.write_backend, "git");
    assert!(
        git.require_commit_message,
        "git vault with require_commit_message=true surfaces it"
    );
}

#[test]
fn test_vault_count() {
    let mut manager = MultiVaultManager::new(create_test_config()).unwrap();
    assert_eq!(manager.vault_count(), 2);
    manager.add_vault(create_test_vault("vault3", false)).ok();
    assert_eq!(manager.vault_count(), 3);
}

#[test]
fn test_get_effective_vault_settings() {
    let manager = MultiVaultManager::new(create_test_config()).unwrap();
    let settings = manager.get_effective_vault_settings("vault1").unwrap();
    assert_eq!(settings.name, "vault1");
}

#[test]
fn a_vault_inherits_what_it_leaves_open() {
    let mut config = create_test_config();
    config.vaults[0].cache_ttl = Some(5);
    let manager = MultiVaultManager::new(config).unwrap();
    let settings = manager.get_effective_vault_settings("vault1").unwrap();
    assert_eq!(settings.cache_ttl, Some(5));
    assert_eq!(settings.max_file_size, Some(10 * 1024 * 1024));
    assert_eq!(settings.excluded_subtrees, Some(Vec::new()));
    assert_eq!(settings.allowed_operations, None);
    assert!(settings.excluded_paths.unwrap().contains(&".git".to_string()));
    assert_eq!(manager.get_vault_config("vault1").unwrap().max_file_size, None);
    assert!(matches!(
        manager.get_effective_vault_settings("nowhere"),
        Err(Error::NotFound(m)) if m == "Vault 'nowhere' not found"
    ));
}

#[test]
fn test_remove_active_vault_reassigns() {
    let mut manager = MultiVaultManager::new(create_test_config()).unwrap();

    manager.set_active_vault("vault2").unwrap();
    assert_eq!(manager.get_active_vault(), "vault2");

    manager.remove_vault("vault1").unwrap();
    assert!(!manager.vault_exists("vault1"));
    assert_eq!(
        manager.get_active_vault(),
        "vault2",
        "active vault should remain vault2 after vault1 is removed"
    );

    manager.remove_vault("vault2").unwrap();
    assert!(!manager.vault_exists("vault2"));
    let active_after = manager.get_active_vault();
    assert!(
        active_after.is_empty(),
        "active vault should be empty when last vault is removed, got: {:?}",
        active_after
    );
}

#[test]
fn test_add_vault_at_max_limit() {
    let mut manager = MultiVaultManager::new(ServerConfig::new()).unwrap();

    for i in 0..MAX_VAULTS {
        let vault = create_test_vault(&format!("vault{}", i), i == 0);
        manager.add_vault(vault).unwrap();
    }

    assert_eq!(manager.vault_count(), MAX_VAULTS);

    let result = manager.add_vault(create_test_vault("overflow", false));
    assert!(result.is_err(), "adding the {}th vault should fail", MAX_VAULTS + 1);
}

#[test]
fn removing_what_was_added_restores_the_registry() {
    let mut manager = MultiVaultManager::new(create_test_config()).unwrap();
    manager.add_vault(create_test_vault("vault3", false)).unwrap();
    manager.remove_vault("vault3").unwrap();
    let names: Vec<String> = manager.list_vaults().into_iter().map(|v| v.name).collect();
    assert_eq!(names, vec!["vault1", "vault2"]);
    assert_eq!(manager.get_active_vault_config().unwrap().name, "vault1");
    assert!(matches!(manager.get_vault_config("vault3"), Err(Error::NotFound(_))));
    assert!(manager.remove_vault("vault3").is_err());
    assert!(MultiVaultManager::empty(ServerConfig::new()).unwrap().get_active_vault_config().is_err());
}

#[test]
fn a_project_is_cached_under_its_own_name() {
    let cache = VaultCache::init_with_project_in("/work/sub", "/work", "/cache");
    assert_eq!(cache.cache_dir(), "/cache");
    assert_eq!(cache.working_dir(), "/work/sub");
    assert_eq!(cache.project_id(), get_project_id("/work"));
    assert!(cache.project_cache_dir().starts_with("/cache/"));
    assert!(cache.project_cache_dir().ends_with(cache.project_id()));
    assert!(cache.vaults_file().ends_with("/vaults.yaml"));
    assert!(cache.metadata_file().ends_with("/metadata.json"));
    let metadata = cache.metadata("main", 7);
    assert_eq!(metadata.active_vault, "main");
    assert_eq!(metadata.last_updated, 7);
    assert_eq!(cache.missing_metadata().active_vault, "");
}

#[test]
fn a_project_begins_at_the_nearest_marker() {
    assert!(!project_markers().is_empty());
    let candidates = project_candidates("/a/b/c");
    assert_eq!(candidates[0], "/a/b/c");
    let mut marked = vec![false; candidates.len()];
    assert_eq!(project_root("/a/b/c", &marked), "/a/b/c");
    marked[1] = true;
    assert_eq!(project_root("/a/b/c", &marked), "/a/b");
}

#[test]
fn lists_that_stand_for_sets_hold_nothing_twice() {
    let list = |all: &[&str]| all.iter().map(|s| s.to_string()).collect::<Vec<String>>();
    let vault = VaultConfig::builder("main", "/tmp/main")
        .excluded_subtrees(list(&["a/b", "c", "a//b/", "c"]))
        .build()
        .unwrap();
    assert_eq!(vault.excluded_subtrees.unwrap(), list(&["a/b", "c"]));
    assert_eq!(without_repeats(&list(&["x", "y", "x"])), list(&["x", "y"]));
    assert_eq!(without_repeated_paths(&list(&["x/./y", "x/y", "y"])), list(&["x/./y", "y"]));
}

#[test]
fn the_cache_lies_under_the_users_directories() {
    let dir = |s: &str| Some(s.to_string());
    assert_eq!(
        get_cache_dir(true, &dir("/x"), &dir("/l"), &dir("/h")).unwrap(),
        "/x/turbovault"
    );
    assert_eq!(
        get_cache_dir(false, &None, &dir("/l"), &dir("/h")).unwrap(),
        "/h/.cache/turbovault"
    );
    assert_eq!(
        get_cache_dir(true, &None, &dir("/l"), &dir("/h")).unwrap(),
        "/l/turbovault/cache"
    );
    assert_eq!(
        get_cache_dir(true, &None, &None, &dir("/h")).unwrap(),
        "/h/.turbovault/cache"
    );
    assert!(get_cache_dir(false, &None, &dir("/l"), &None).is_err());
    assert_eq!(current_timestamp(1_500_000_000), 1);
    assert_eq!(current_timestamp(-1), 0);
}
