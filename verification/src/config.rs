//! Vault and server settings, and when they are valid.
use crate::error::{around, wrap, Error, Fault};
use crate::paths::{
    are_different_paths, begins_at_root, distinct_paths, is_absolute, lemma_distinct_paths,
    part_models, parts, parts_of, without_repeated_paths, PathPart,
};
use crate::text::{copy, copy_opt, copy_opt_texts, opt_text, opt_texts, same, texts};
use vstd::prelude::*;

verus! {

// ---------------------------------------------------------------------------
// Write backends
// ---------------------------------------------------------------------------

/// What writes the changes of a vault.
#[derive(Debug, Clone, Copy, PartialEq, Eq, Structural)]
pub enum WriteBackend {
    /// Straight to the file system.
    Direct,
    /// As commits of a git repository.
    Git,
}

impl Default for WriteBackend {
    fn default() -> (r: Self)
        ensures
            r == WriteBackend::Direct,
    {
        WriteBackend::Direct
    }
}

/// The backend that a text names; `legacy` is an older name of `direct`. These are the
/// names that settings files use, and no others.
pub open spec fn backend_of(value: Seq<char>) -> Option<WriteBackend> {
    if value == "direct"@ || value == "legacy"@ {
        Some(WriteBackend::Direct)
    } else if value == "git"@ {
        Some(WriteBackend::Git)
    } else {
        None
    }
}

impl WriteBackend {
    /// The backend that a text names.
    pub fn parse(value: &str) -> (r: Result<WriteBackend, Error>)
        ensures
            match r {
                Ok(backend) => backend_of(value@) == Some(backend),
                Err(error) => backend_of(value@) is None && error@ == Fault::Config(
                    around(
                        "Unknown write_backend '"@,
                        value@,
                        "' (expected 'direct' or 'git')"@,
                    ),
                ),
            },
    {
        if same(value, "direct") || same(value, "legacy") {
            Ok(WriteBackend::Direct)
        } else if same(value, "git") {
            Ok(WriteBackend::Git)
        } else {
            Err(
                Error::Config(
                    wrap("Unknown write_backend '", value, "' (expected 'direct' or 'git')"),
                ),
            )
        }
    }

    /// The name of the backend.
    pub open spec fn label(self) -> Seq<char> {
        match self {
            WriteBackend::Direct => "direct"@,
            WriteBackend::Git => "git"@,
        }
    }

    /// The name of the backend.
    pub fn name(self) -> (r: &'static str)
        ensures
            r@ == self.label(),
    {
        match self {
            WriteBackend::Direct => "direct",
            WriteBackend::Git => "git",
        }
    }
}

impl std::str::FromStr for WriteBackend {
    type Err = Error;

    fn from_str(value: &str) -> (r: Result<Self, Error>)
        ensures
            match r {
                Ok(backend) => backend_of(value@) == Some(backend),
                Err(error) => backend_of(value@) is None && error@ == Fault::Config(
                    around(
                        "Unknown write_backend '"@,
                        value@,
                        "' (expected 'direct' or 'git')"@,
                    ),
                ),
            },
    {
        WriteBackend::parse(value)
    }
}

/// A backend is read back from the name it is given.
pub proof fn lemma_backend_label_reads_back(backend: WriteBackend)
    ensures
        backend_of(backend.label()) == Some(backend),
{
    reveal_strlit("direct");
    reveal_strlit("git");
    reveal_strlit("legacy");
    assert("direct"@[0] != "git"@[0]);
    assert("legacy"@[0] != "git"@[0]);
}

/// How a branch of work is merged back.
#[derive(Debug, Clone, Copy, PartialEq, Eq, Structural)]
pub enum GitMergeStrategy {
    /// With a merge commit.
    MergeCommit,
    /// By moving the target forward.
    FastForward,
}

impl Default for GitMergeStrategy {
    fn default() -> (r: Self)
        ensures
            r == GitMergeStrategy::MergeCommit,
    {
        GitMergeStrategy::MergeCommit
    }
}

/// Who commits.
#[derive(Debug)]
pub struct GitAuthor {
    pub name: String,
    pub email: String,
}

/// The git settings of a vault.
#[derive(Debug)]
pub struct VaultGitConfig {
    /// The branch to commit to, the current one where there is none.
    pub branch: Option<String>,
    pub author: Option<GitAuthor>,
    pub merge_strategy: GitMergeStrategy,
    /// Whether paths that git ignores are committed all the same.
    pub include_ignored: bool,
    /// Whether every change must come with a commit message.
    pub require_commit_message: bool,
}

/// The model of the git settings of a vault.
pub struct GitSettings {
    pub branch: Option<Seq<char>>,
    pub author: Option<(Seq<char>, Seq<char>)>,
    pub merge_strategy: GitMergeStrategy,
    pub include_ignored: bool,
    pub require_commit_message: bool,
}

impl View for VaultGitConfig {
    type V = GitSettings;

    open spec fn view(&self) -> GitSettings {
        GitSettings {
            branch: opt_text(self.branch),
            author: match self.author {
                Some(author) => Some((author.name@, author.email@)),
                None => None,
            },
            merge_strategy: self.merge_strategy,
            include_ignored: self.include_ignored,
            require_commit_message: self.require_commit_message,
        }
    }
}

impl Clone for VaultGitConfig {
    fn clone(&self) -> (r: Self)
        ensures
            r@ == self@,
    {
        VaultGitConfig {
            branch: copy_opt(&self.branch),
            author: match &self.author {
                Some(author) => Some(
                    GitAuthor { name: author.name.clone(), email: author.email.clone() },
                ),
                None => None,
            },
            merge_strategy: self.merge_strategy,
            include_ignored: self.include_ignored,
            require_commit_message: self.require_commit_message,
        }
    }
}

/// Ignored paths are committed unless a vault says otherwise.
pub fn default_include_ignored() -> (r: bool)
    ensures
        r,
{
    true
}

impl Default for VaultGitConfig {
    fn default() -> (r: Self)
        ensures
            r.branch is None,
            r.author is None,
            r.merge_strategy == GitMergeStrategy::MergeCommit,
            r.include_ignored,
            !r.require_commit_message,
    {
        VaultGitConfig {
            branch: None,
            author: None,
            merge_strategy: GitMergeStrategy::default(),
            include_ignored: default_include_ignored(),
            require_commit_message: false,
        }
    }
}

// ---------------------------------------------------------------------------
// Subtrees
// ---------------------------------------------------------------------------

/// Whether a path names a subtree of a vault: a relative path that is not empty
/// and runs through names only.
pub open spec fn is_subtree(path: Seq<char>) -> bool {
    &&& path.len() > 0
    &&& !is_absolute(path)
    &&& forall|i: int| 0 <= i < parts(path).len() ==> (#[trigger] parts(path)[i]) is Normal
}

/// The first path that names no subtree, if there is one.
pub open spec fn first_bad(paths: Seq<Seq<char>>) -> Option<Seq<char>>
    decreases paths.len(),
{
    if paths.len() == 0 {
        None
    } else {
        match first_bad(paths.drop_last()) {
            Some(path) => Some(path),
            None => if is_subtree(paths.last()) {
                None
            } else {
                Some(paths.last())
            },
        }
    }
}

/// What is said of a path that names no subtree.
pub open spec fn not_a_subtree(path: Seq<char>) -> Fault {
    Fault::Config(
        around(
            "Excluded subtree must be a non-empty vault-relative path without '.' or '..': "@,
            path,
            Seq::empty(),
        ),
    )
}

/// What is wrong with a list of subtrees, if anything.
pub open spec fn subtrees_fault(paths: Seq<Seq<char>>) -> Option<Fault> {
    match first_bad(paths) {
        Some(path) => Some(not_a_subtree(path)),
        None => None,
    }
}

/// Whether a path names a subtree of a vault.
fn names_subtree(path: &str) -> (r: bool)
    ensures
        r == is_subtree(path@),
{
    if path.is_empty() || begins_at_root(path) {
        return false;
    }
    let all = parts_of(path);
    let ghost model = parts(path@);
    let mut i: usize = 0;
    while i < all.len()
        invariant
            i <= all.len(),
            model == part_models(all@),
            model == parts(path@),
            forall|k: int| 0 <= k < i ==> (#[trigger] model[k]) is Normal,
        decreases all.len() - i,
    {
        assert(model[i as int] == all@[i as int]@);
        match &all[i] {
            PathPart::Normal(_) => {},
            _ => {
                return false;
            },
        }
        i = i + 1;
    }
    true
}

/// Refuses the first path that names no subtree.
pub fn validate_excluded_subtrees(paths: &Vec<String>) -> (r: Result<(), Error>)
    ensures
        match r {
            Ok(_) => subtrees_fault(texts(paths@)) is None,
            Err(error) => subtrees_fault(texts(paths@)) == Some(error@),
        },
{
    let ghost all = texts(paths@);
    let mut i: usize = 0;
    while i < paths.len()
        invariant
            i <= paths.len(),
            all == texts(paths@),
            first_bad(all.take(i as int)) is None,
        decreases paths.len() - i,
    {
        assert(all.take(i + 1).drop_last() =~= all.take(i as int));
        if !names_subtree(paths[i].as_str()) {
            proof {
                lemma_first_bad(all, i + 1);
                reveal_strlit("");
                assert(""@ =~= Seq::<char>::empty());
            }
            return Err(
                Error::Config(
                    wrap(
                        "Excluded subtree must be a non-empty vault-relative path without '.' or '..': ",
                        paths[i].as_str(),
                        "",
                    ),
                ),
            );
        }
        i = i + 1;
    }
    assert(all.take(i as int) =~= all);
    Ok(())
}

proof fn lemma_first_bad(paths: Seq<Seq<char>>, n: int)
    requires
        0 <= n <= paths.len(),
        first_bad(paths.take(n)) is Some,
    ensures
        first_bad(paths) == first_bad(paths.take(n)),
    decreases paths.len(),
{
    if n < paths.len() {
        assert(paths.drop_last().take(n) =~= paths.take(n));
        lemma_first_bad(paths.drop_last(), n);
    } else {
        assert(paths.take(n) =~= paths);
    }
}

// ---------------------------------------------------------------------------
// One vault
// ---------------------------------------------------------------------------

/// The settings of one vault. What is `None` is left to the server.
#[derive(Debug)]
pub struct VaultConfig {
    pub name: String,
    pub path: String,
    pub is_default: bool,
    pub reconcile_external_changes: Option<bool>,
    pub max_file_size: Option<u64>,
    pub allowed_extensions: Option<Vec<String>>,
    pub excluded_paths: Option<Vec<String>>,
    /// Subtrees, relative to the vault, that no scan, note function or search
    /// reaches.
    pub excluded_subtrees: Option<Vec<String>>,
    pub enable_caching: Option<bool>,
    pub cache_ttl: Option<u64>,
    pub template_dirs: Option<Vec<String>>,
    pub allowed_operations: Option<Vec<String>>,
    pub write_backend: WriteBackend,
    pub git: Option<VaultGitConfig>,
}

/// The model of the settings of one vault.
pub struct Vault {
    pub name: Seq<char>,
    pub path: Seq<char>,
    pub is_default: bool,
    pub reconcile_external_changes: Option<bool>,
    pub max_file_size: Option<u64>,
    pub allowed_extensions: Option<Seq<Seq<char>>>,
    pub excluded_paths: Option<Seq<Seq<char>>>,
    pub excluded_subtrees: Option<Seq<Seq<char>>>,
    pub enable_caching: Option<bool>,
    pub cache_ttl: Option<u64>,
    pub template_dirs: Option<Seq<Seq<char>>>,
    pub allowed_operations: Option<Seq<Seq<char>>>,
    pub write_backend: WriteBackend,
    pub git: Option<GitSettings>,
}

/// Whether nothing occurs twice in a list that may not be there.
pub open spec fn is_opt_set(o: Option<Seq<Seq<char>>>) -> bool {
    o matches Some(all) ==> all.no_duplicates()
}

impl Vault {
    /// Whether nothing occurs twice among the extensions, the names and the subtrees that are
    /// left out, and the operations. A subtree is the same in all its spellings.
    pub open spec fn holds_sets(self) -> bool {
        &&& is_opt_set(self.allowed_extensions)
        &&& is_opt_set(self.excluded_paths)
        &&& self.excluded_subtrees matches Some(all) ==> are_different_paths(all)
        &&& is_opt_set(self.allowed_operations)
    }
}

impl View for VaultConfig {
    type V = Vault;

    open spec fn view(&self) -> Vault {
        Vault {
            name: self.name@,
            path: self.path@,
            is_default: self.is_default,
            reconcile_external_changes: self.reconcile_external_changes,
            max_file_size: self.max_file_size,
            allowed_extensions: opt_texts(self.allowed_extensions),
            excluded_paths: opt_texts(self.excluded_paths),
            excluded_subtrees: opt_texts(self.excluded_subtrees),
            enable_caching: self.enable_caching,
            cache_ttl: self.cache_ttl,
            template_dirs: opt_texts(self.template_dirs),
            allowed_operations: opt_texts(self.allowed_operations),
            write_backend: self.write_backend,
            git: match self.git {
                Some(git) => Some(git@),
                None => None,
            },
        }
    }
}

impl Clone for VaultConfig {
    fn clone(&self) -> (r: Self)
        ensures
            r@ == self@,
    {
        VaultConfig {
            name: self.name.clone(),
            path: self.path.clone(),
            is_default: self.is_default,
            reconcile_external_changes: self.reconcile_external_changes,
            max_file_size: self.max_file_size,
            allowed_extensions: copy_opt_texts(&self.allowed_extensions),
            excluded_paths: copy_opt_texts(&self.excluded_paths),
            excluded_subtrees: copy_opt_texts(&self.excluded_subtrees),
            enable_caching: self.enable_caching,
            cache_ttl: self.cache_ttl,
            template_dirs: copy_opt_texts(&self.template_dirs),
            allowed_operations: copy_opt_texts(&self.allowed_operations),
            write_backend: self.write_backend,
            git: match &self.git {
                Some(git) => Some(git.clone()),
                None => None,
            },
        }
    }
}

/// What is known of the directory of a vault, once it was made where it was
/// missing.
#[derive(Debug)]
pub enum DirectoryState {
    /// It is a directory.
    Directory,
    /// Something else stands there.
    NotDirectory,
    /// It was missing and could not be made.
    CreateFailed(String),
}

/// What is said of the directory of a vault, if anything.
pub open spec fn directory_fault(path: Seq<char>, state: DirectoryState) -> Option<Fault> {
    match state {
        DirectoryState::Directory => None,
        DirectoryState::NotDirectory => Some(
            Fault::Config(
                around("Vault path is not a directory: "@, path, Seq::empty()),
            ),
        ),
        DirectoryState::CreateFailed(reason) => Some(
            Fault::Config(
                around(
                    "Vault path does not exist and could not be created: "@,
                    path,
                    around(" ("@, reason@, ")"@),
                ),
            ),
        ),
    }
}

impl VaultConfig {
    /// Begins the settings of a vault.
    pub fn builder(name: &str, path: &str) -> (r: VaultConfigBuilder)
        ensures
            is_plain_config(r.settings(), name@, path@),
    {
        VaultConfigBuilder::new(name, path)
    }

    /// What is wrong with the settings by themselves, if anything: that there is no
    /// name, or else an excluded subtree that is none.
    pub open spec fn settings_fault(self) -> Option<Fault> {
        if self.name@.len() == 0 {
            Some(Fault::Config("Vault name cannot be empty"@))
        } else {
            match self.excluded_subtrees {
                Some(paths) => subtrees_fault(texts(paths@)),
                None => None,
            }
        }
    }

    /// Checks the settings by themselves.
    pub fn validate_settings(&self) -> (r: Result<(), Error>)
        ensures
            match r {
                Ok(_) => self.settings_fault() is None,
                Err(error) => self.settings_fault() == Some(error@),
            },
    {
        if self.name.as_str().is_empty() {
            return Err(Error::Config(copy("Vault name cannot be empty")));
        }
        match &self.excluded_subtrees {
            Some(paths) => validate_excluded_subtrees(paths),
            None => Ok(()),
        }
    }

    /// Checks the settings, and then the directory, given what is known of it.
    pub fn validate(&self, directory: &DirectoryState) -> (r: Result<(), Error>)
        ensures
            match r {
                Ok(_) => self.settings_fault() is None && directory is Directory,
                Err(error) => Some(error@) == match self.settings_fault() {
                    Some(fault) => Some(fault),
                    None => directory_fault(self.path@, *directory),
                },
            },
    {
        match self.validate_settings() {
            Ok(_) => {},
            Err(error) => {
                return Err(error);
            },
        }
        match directory {
            DirectoryState::Directory => Ok(()),
            DirectoryState::NotDirectory => {
                proof {
                    reveal_strlit("");
                    assert(""@ =~= Seq::<char>::empty());
                }
                Err(
                    Error::Config(
                        wrap("Vault path is not a directory: ", self.path.as_str(), ""),
                    ),
                )
            },
            DirectoryState::CreateFailed(reason) => Err(
                Error::Config(
                    wrap(
                        "Vault path does not exist and could not be created: ",
                        self.path.as_str(),
                        wrap(" (", reason.as_str(), ")").as_str(),
                    ),
                ),
            ),
        }
    }
}

/// The settings of a vault of which nothing but name and path was said.
pub open spec fn is_plain_config(config: VaultConfig, name: Seq<char>, path: Seq<char>) -> bool {
    &&& config.name@ == name
    &&& config.path@ == path
    &&& !config.is_default
    &&& config.reconcile_external_changes is None
    &&& config.max_file_size is None
    &&& config.allowed_extensions is None
    &&& config.excluded_paths is None
    &&& config.excluded_subtrees is None
    &&& config.enable_caching is None
    &&& config.cache_ttl is None
    &&& config.template_dirs is None
    &&& config.allowed_operations is None
    &&& config.write_backend == WriteBackend::Direct
    &&& config.git is None
}

/// `shellexpand::full` puts the home directory for a leading tilde and the values
/// of environment variables for their names; it fails on a variable that is not
/// set. A text without a dollar sign and without a leading tilde comes back as it
/// is. Of any other text nothing is claimed: what comes back depends on the
/// environment.
#[verifier::external_body]
fn expand(text: &str) -> (r: Option<String>)
    ensures
        !text@.contains('$') && !(text@.len() > 0 && text@[0] == '~') ==> opt_text(r) == Some(
            text@,
        ),
{
    shellexpand::full(text).ok().map(|expanded| expanded.into_owned())
}

/// Settings of a vault in the making.
#[derive(Debug)]
pub struct VaultConfigBuilder {
    config: VaultConfig,
}

impl VaultConfigBuilder {
    /// The settings so far.
    pub closed spec fn settings(self) -> VaultConfig {
        self.config
    }

    #[verifier::type_invariant]
    spec fn holds_sets(self) -> bool {
        self.config@.holds_sets()
    }

    /// Begins the settings of a vault.
    pub fn new(name: &str, path: &str) -> (r: VaultConfigBuilder)
        ensures
            is_plain_config(r.settings(), name@, path@),
    {
        VaultConfigBuilder {
            config: VaultConfig {
                name: copy(name),
                path: copy(path),
                is_default: false,
                reconcile_external_changes: None,
                max_file_size: None,
                allowed_extensions: None,
                excluded_paths: None,
                excluded_subtrees: None,
                enable_caching: None,
                cache_ttl: None,
                template_dirs: None,
                allowed_operations: None,
                write_backend: WriteBackend::default(),
                git: None,
            },
        }
    }

    /// Makes it the default vault.
    pub fn as_default(self) -> (r: VaultConfigBuilder)
        ensures
            r.settings() == (VaultConfig { is_default: true, ..self.settings() }),
    {
        proof {
            use_type_invariant(&self);
        }
        let mut config = self.config;
        config.is_default = true;
        VaultConfigBuilder { config }
    }

    /// Says whether edits made by others are looked for.
    pub fn reconcile_external_changes(self, watch: bool) -> (r: VaultConfigBuilder)
        ensures
            r.settings() == (VaultConfig {
                reconcile_external_changes: Some(watch),
                ..self.settings()
            }),
    {
        proof {
            use_type_invariant(&self);
        }
        let mut config = self.config;
        config.reconcile_external_changes = Some(watch);
        VaultConfigBuilder { config }
    }

    /// Says which subtrees are left out, each once.
    pub fn excluded_subtrees(self, paths: Vec<String>) -> (r: VaultConfigBuilder)
        ensures
            r.settings() == (VaultConfig {
                excluded_subtrees: r.settings().excluded_subtrees,
                ..self.settings()
            }),
            r.settings()@.excluded_subtrees == Some(distinct_paths(texts(paths@))),
    {
        proof {
            use_type_invariant(&self);
            lemma_distinct_paths(texts(paths@));
        }
        let mut config = self.config;
        config.excluded_subtrees = Some(without_repeated_paths(&paths));
        VaultConfigBuilder { config }
    }

    /// Says what writes the changes.
    pub fn write_backend(self, backend: WriteBackend) -> (r: VaultConfigBuilder)
        ensures
            r.settings() == (VaultConfig { write_backend: backend, ..self.settings() }),
    {
        proof {
            use_type_invariant(&self);
        }
        let mut config = self.config;
        config.write_backend = backend;
        VaultConfigBuilder { config }
    }

    /// Sets the git settings.
    pub fn git(self, git: VaultGitConfig) -> (r: VaultConfigBuilder)
        ensures
            r.settings() == (VaultConfig { git: Some(git), ..self.settings() }),
    {
        proof {
            use_type_invariant(&self);
        }
        let mut config = self.config;
        config.git = Some(git);
        VaultConfigBuilder { config }
    }

    /// The settings with the path in its expanded form, where there is one; an
    /// error where they are not valid by themselves.
    pub fn build_with(self, expanded: Option<String>) -> (r: Result<VaultConfig, Error>)
        ensures
            r matches Err(error) ==> self.settings().settings_fault() == Some(error@),
            r matches Ok(config) ==> self.settings().settings_fault() is None && config == (VaultConfig {
                path: config.path,
                ..self.settings()
            }) && config.path@ == match expanded {
                Some(path) => path@,
                None => self.settings().path@,
            },
            r matches Ok(config) ==> config@.holds_sets(),
    {
        proof {
            use_type_invariant(&self);
        }
        let mut config = self.config;
        match expanded {
            Some(path) => {
                config.path = path;
            },
            None => {},
        }
        match config.validate_settings() {
            Ok(_) => Ok(config),
            Err(error) => Err(error),
        }
    }

    /// The settings, with the home directory and environment variables put into
    /// the path; an error where they are not valid by themselves. What the path
    /// becomes is said only of one that holds no tilde in front and no dollar
    /// sign: it stays as it is.
    pub fn build(self) -> (r: Result<VaultConfig, Error>)
        ensures
            r matches Err(error) ==> self.settings().settings_fault() == Some(error@),
            r matches Ok(config) ==> {
                &&& self.settings().settings_fault() is None
                &&& config == (VaultConfig { path: config.path, ..self.settings() })
                &&& !self.settings().path@.contains('$') && !(self.settings().path@.len() > 0
                    && self.settings().path@[0] == '~') ==> config.path@ == self.settings().path@
            },
            r matches Ok(config) ==> config@.holds_sets(),
    {
        let expanded = expand(self.config.path.as_str());
        self.build_with(expanded)
    }
}

// ---------------------------------------------------------------------------
// The server
// ---------------------------------------------------------------------------

/// The settings of the server that its decisions read.
#[derive(Debug)]
pub struct ServerConfig {
    pub vaults: Vec<VaultConfig>,
    pub profile: String,
    /// Whether edits made by others are looked for before derived state is served.
    pub reconcile_external_changes: bool,
    pub max_file_size: u64,
    pub allowed_extensions: Vec<String>,
    pub excluded_paths: Vec<String>,
    /// Subtrees, relative to a vault, that no scan, note function or search
    /// reaches.
    pub excluded_subtrees: Vec<String>,
    pub enable_caching: bool,
    pub cache_ttl: u64,
    pub log_level: String,
    pub template_dirs: Vec<String>,
    pub editor_backup_enabled: bool,
    pub editor_atomic_writes: bool,
    pub max_backup_files: usize,
    pub max_edit_history: usize,
    pub backup_retention_days: u32,
    pub link_graph_enabled: bool,
    pub link_suggestions_enabled: bool,
    pub max_link_suggestions: usize,
    pub full_text_search_enabled: bool,
    pub index_rebuild_interval: u64,
    pub multi_vault_enabled: bool,
    pub metrics_enabled: bool,
    pub debug_mode: bool,
}

/// The settings that a server has unless told otherwise.
pub open spec fn is_default_config(config: ServerConfig) -> bool {
    &&& config.vaults@.len() == 0
    &&& config.profile@ == "default"@
    &&& config.reconcile_external_changes
    &&& config.max_file_size == 10 * 1024 * 1024
    &&& texts(config.allowed_extensions@) == seq![".md"@, ".txt"@, ".canvas"@]
    &&& texts(config.excluded_paths@) == seq![
        ".obsidian"@,
        ".git"@,
        ".DS_Store"@,
        "node_modules"@,
    ]
    &&& config.excluded_subtrees@.len() == 0
    &&& config.enable_caching
    &&& config.cache_ttl == 3600
    &&& config.log_level@ == "INFO"@
    &&& config.template_dirs@.len() == 0
    &&& config.editor_backup_enabled
    &&& config.editor_atomic_writes
    &&& config.max_backup_files == 100
    &&& config.max_edit_history == 100
    &&& config.backup_retention_days == 7
    &&& config.link_graph_enabled
    &&& config.link_suggestions_enabled
    &&& config.max_link_suggestions == 10
    &&& config.full_text_search_enabled
    &&& config.index_rebuild_interval == 3600
    &&& !config.multi_vault_enabled
    &&& !config.metrics_enabled
    &&& !config.debug_mode
}

proof fn lemma_default_lists()
    ensures
        seq![".md"@, ".txt"@, ".canvas"@].no_duplicates(),
        seq![".obsidian"@, ".git"@, ".DS_Store"@, "node_modules"@].no_duplicates(),
{
    reveal_strlit(".md");
    reveal_strlit(".txt");
    reveal_strlit(".canvas");
    assert(".md"@[1] == 'm' && ".txt"@[1] == 't' && ".canvas"@[1] == 'c');
    reveal_strlit(".obsidian");
    reveal_strlit(".git");
    reveal_strlit(".DS_Store");
    reveal_strlit("node_modules");
    assert(".obsidian"@[1] == 'o' && ".git"@[1] == 'g' && ".DS_Store"@[1] == 'D'
        && "node_modules"@[0] == 'n');
    assert(".obsidian"@[0] == '.' && ".git"@[0] == '.' && ".DS_Store"@[0] == '.');
}

impl Default for ServerConfig {
    fn default() -> (r: Self)
        ensures
            is_default_config(r),
            r.holds_sets(),
    {
        let mut allowed: Vec<String> = Vec::new();
        allowed.push(copy(".md"));
        allowed.push(copy(".txt"));
        allowed.push(copy(".canvas"));
        assert(texts(allowed@) =~= seq![".md"@, ".txt"@, ".canvas"@]);
        let mut excluded: Vec<String> = Vec::new();
        excluded.push(copy(".obsidian"));
        excluded.push(copy(".git"));
        excluded.push(copy(".DS_Store"));
        excluded.push(copy("node_modules"));
        assert(texts(excluded@) =~= seq![".obsidian"@, ".git"@, ".DS_Store"@, "node_modules"@]);
        proof {
            lemma_default_lists();
        }
        ServerConfig {
            vaults: Vec::new(),
            profile: copy("default"),
            reconcile_external_changes: true,
            max_file_size: 10 * 1024 * 1024,
            allowed_extensions: allowed,
            excluded_paths: excluded,
            excluded_subtrees: Vec::new(),
            enable_caching: true,
            cache_ttl: 3600,
            log_level: copy("INFO"),
            template_dirs: Vec::new(),
            editor_backup_enabled: true,
            editor_atomic_writes: true,
            max_backup_files: 100,
            max_edit_history: 100,
            backup_retention_days: 7,
            link_graph_enabled: true,
            link_suggestions_enabled: true,
            max_link_suggestions: 10,
            full_text_search_enabled: true,
            index_rebuild_interval: 3600,
            multi_vault_enabled: false,
            metrics_enabled: false,
            debug_mode: false,
        }
    }
}

/// The names of the vaults.
pub open spec fn vault_names(vaults: Seq<VaultConfig>) -> Seq<Seq<char>> {
    vaults.map_values(|v: VaultConfig| v.name@)
}

/// The position of the default vault: the first that says so, else the first.
pub open spec fn default_position(vaults: Seq<VaultConfig>) -> Option<int> {
    if exists|i: int| 0 <= i < vaults.len() && (#[trigger] vaults[i]).is_default {
        Some(first_default(vaults, 0))
    } else if vaults.len() > 0 {
        Some(0)
    } else {
        None
    }
}

/// The first vault from `from` on that says it is the default.
pub open spec fn first_default(vaults: Seq<VaultConfig>, from: int) -> int
    decreases vaults.len() - from,
{
    if from >= vaults.len() || vaults[from].is_default {
        from
    } else {
        first_default(vaults, from + 1)
    }
}

proof fn lemma_first_default(vaults: Seq<VaultConfig>, from: int, at: int)
    requires
        0 <= from <= at < vaults.len(),
        vaults[at].is_default,
        forall|k: int| from <= k < at ==> !(#[trigger] vaults[k]).is_default,
    ensures
        first_default(vaults, from) == at,
    decreases at - from,
{
    if from < at {
        lemma_first_default(vaults, from + 1, at);
    }
}

/// Whether at most one vault says it is the default.
pub open spec fn one_default(vaults: Seq<VaultConfig>) -> bool {
    forall|i: int, j: int|
        0 <= i < j < vaults.len() ==> !((#[trigger] vaults[i]).is_default && (
        #[trigger] vaults[j]).is_default)
}

/// What is wrong with the settings of the first vault of which anything is.
pub open spec fn vaults_fault(vaults: Seq<VaultConfig>) -> Option<Fault>
    decreases vaults.len(),
{
    if vaults.len() == 0 {
        None
    } else {
        match vaults_fault(vaults.drop_last()) {
            Some(fault) => Some(fault),
            None => vaults.last().settings_fault(),
        }
    }
}

proof fn lemma_vaults_fault(vaults: Seq<VaultConfig>, n: int)
    requires
        0 <= n <= vaults.len(),
        vaults_fault(vaults.take(n)) is Some,
    ensures
        vaults_fault(vaults) == vaults_fault(vaults.take(n)),
    decreases vaults.len(),
{
    if n < vaults.len() {
        assert(vaults.drop_last().take(n) =~= vaults.take(n));
        lemma_vaults_fault(vaults.drop_last(), n);
    } else {
        assert(vaults.take(n) =~= vaults);
    }
}

/// What is wrong with the settings or the directory of the first vault of which anything
/// is, the settings before the directory.
pub open spec fn first_fault(
    vaults: Seq<VaultConfig>,
    directories: Seq<DirectoryState>,
) -> Option<Fault>
    decreases vaults.len(),
{
    if vaults.len() == 0 {
        None
    } else {
        match first_fault(vaults.drop_last(), directories) {
            Some(fault) => Some(fault),
            None => match vaults.last().settings_fault() {
                Some(fault) => Some(fault),
                None => directory_fault(vaults.last().path@, directories[vaults.len() - 1]),
            },
        }
    }
}

proof fn lemma_first_fault(vaults: Seq<VaultConfig>, directories: Seq<DirectoryState>, n: int)
    requires
        0 <= n <= vaults.len(),
        first_fault(vaults.take(n), directories) is Some,
    ensures
        first_fault(vaults, directories) == first_fault(vaults.take(n), directories),
    decreases vaults.len(),
{
    if n < vaults.len() {
        assert(vaults.drop_last().take(n) =~= vaults.take(n));
        lemma_first_fault(vaults.drop_last(), directories, n);
    } else {
        assert(vaults.take(n) =~= vaults);
    }
}

impl ServerConfig {
    /// The settings that a server has unless told otherwise.
    pub fn new() -> (r: ServerConfig)
        ensures
            is_default_config(r),
            r.holds_sets(),
    {
        ServerConfig::default()
    }

    /// Whether nothing occurs twice among the extensions, and the names and the subtrees that
    /// are left out. A subtree is the same in all its spellings.
    pub open spec fn holds_sets(self) -> bool {
        &&& texts(self.allowed_extensions@).no_duplicates()
        &&& texts(self.excluded_paths@).no_duplicates()
        &&& are_different_paths(texts(self.excluded_subtrees@))
    }

    /// What is wrong with the settings before any vault is looked at, if anything. The
    /// excluded subtrees come first, then whether there is a vault, whether no name occurs
    /// twice, and whether at most one vault is the default.
    pub open spec fn general_fault(self) -> Option<Fault> {
        if subtrees_fault(texts(self.excluded_subtrees@)) is Some {
            subtrees_fault(texts(self.excluded_subtrees@))
        } else if self.vaults@.len() == 0 {
            Some(Fault::Config("At least one vault must be configured"@))
        } else if !vault_names(self.vaults@).no_duplicates() {
            Some(Fault::Config("Vault names must be unique"@))
        } else if !one_default(self.vaults@) {
            Some(Fault::Config("Only one vault can be default"@))
        } else {
            None
        }
    }

    /// What is wrong with the settings by themselves, if anything: what is wrong before any
    /// vault is looked at, and then what is wrong with each vault.
    pub open spec fn settings_fault(self) -> Option<Fault> {
        match self.general_fault() {
            Some(fault) => Some(fault),
            None => vaults_fault(self.vaults@),
        }
    }

    /// What is wrong with the settings and the directories of the vaults, if anything.
    pub open spec fn fault_with(self, directories: Seq<DirectoryState>) -> Option<Fault> {
        match self.general_fault() {
            Some(fault) => Some(fault),
            None => first_fault(self.vaults@, directories),
        }
    }

    /// Checks the settings before any vault is looked at.
    pub fn validate_general(&self) -> (r: Result<(), Error>)
        ensures
            match r {
                Ok(_) => self.general_fault() is None,
                Err(error) => self.general_fault() == Some(error@),
            },
    {
        match validate_excluded_subtrees(&self.excluded_subtrees) {
            Ok(_) => {},
            Err(error) => {
                return Err(error);
            },
        }
        if self.vaults.len() == 0 {
            return Err(Error::Config(copy("At least one vault must be configured")));
        }
        if !self.names_are_unique() {
            return Err(Error::Config(copy("Vault names must be unique")));
        }
        if !self.has_one_default() {
            return Err(Error::Config(copy("Only one vault can be default")));
        }
        Ok(())
    }

    /// Checks the settings by themselves.
    pub fn validate(&self) -> (r: Result<(), Error>)
        ensures
            match r {
                Ok(_) => self.settings_fault() is None,
                Err(error) => self.settings_fault() == Some(error@),
            },
    {
        match self.validate_general() {
            Ok(_) => self.validate_vaults(),
            Err(error) => Err(error),
        }
    }

    /// Checks the settings, and with those of each vault its directory, given what is known
    /// of it.
    pub fn validate_with(&self, directories: &Vec<DirectoryState>) -> (r: Result<(), Error>)
        requires
            directories.len() == self.vaults.len(),
        ensures
            match r {
                Ok(_) => self.fault_with(directories@) is None,
                Err(error) => self.fault_with(directories@) == Some(error@),
            },
    {
        match self.validate_general() {
            Ok(_) => {},
            Err(error) => {
                return Err(error);
            },
        }
        let mut i: usize = 0;
        while i < self.vaults.len()
            invariant
                i <= self.vaults.len() == directories.len(),
                self.general_fault() is None,
                first_fault(self.vaults@.take(i as int), directories@) is None,
            decreases self.vaults.len() - i,
        {
            assert(self.vaults@.take(i + 1).drop_last() =~= self.vaults@.take(i as int));
            match self.vaults[i].validate(&directories[i]) {
                Ok(_) => {},
                Err(error) => {
                    proof {
                        lemma_first_fault(self.vaults@, directories@, i + 1);
                    }
                    return Err(error);
                },
            }
            i = i + 1;
        }
        assert(self.vaults@.take(i as int) =~= self.vaults@);
        Ok(())
    }

    /// Checks each vault.
    fn validate_vaults(&self) -> (r: Result<(), Error>)
        ensures
            match r {
                Ok(_) => vaults_fault(self.vaults@) is None,
                Err(error) => vaults_fault(self.vaults@) == Some(error@),
            },
    {
        let mut i: usize = 0;
        while i < self.vaults.len()
            invariant
                i <= self.vaults.len(),
                vaults_fault(self.vaults@.take(i as int)) is None,
            decreases self.vaults.len() - i,
        {
            assert(self.vaults@.take(i + 1).drop_last() =~= self.vaults@.take(i as int));
            match self.vaults[i].validate_settings() {
                Ok(_) => {},
                Err(error) => {
                    proof {
                        lemma_vaults_fault(self.vaults@, i + 1);
                    }
                    return Err(error);
                },
            }
            i = i + 1;
        }
        assert(self.vaults@.take(i as int) =~= self.vaults@);
        Ok(())
    }

    fn names_are_unique(&self) -> (r: bool)
        ensures
            r == vault_names(self.vaults@).no_duplicates(),
    {
        let ghost names = vault_names(self.vaults@);
        let mut i: usize = 0;
        while i < self.vaults.len()
            invariant
                i <= self.vaults.len(),
                names == vault_names(self.vaults@),
                forall|a: int, b: int| 0 <= a < b < i ==> names[a] != names[b],
            decreases self.vaults.len() - i,
        {
            let mut j: usize = 0;
            while j < i
                invariant
                    j <= i < self.vaults.len(),
                    names == vault_names(self.vaults@),
                    forall|a: int| 0 <= a < j ==> names[a] != names[i as int],
                decreases i - j,
            {
                if same(self.vaults[j].name.as_str(), self.vaults[i].name.as_str()) {
                    assert(names[j as int] == names[i as int]);
                    return false;
                }
                assert(names[j as int] != names[i as int]);
                j = j + 1;
            }
            i = i + 1;
        }
        true
    }

    fn has_one_default(&self) -> (r: bool)
        ensures
            r == one_default(self.vaults@),
    {
        let mut found: Option<usize> = None;
        let mut i: usize = 0;
        while i < self.vaults.len()
            invariant
                i <= self.vaults.len(),
                match found {
                    Some(at) => at < i && self.vaults@[at as int].is_default && forall|k: int|
                        0 <= k < i && k != at ==> !(#[trigger] self.vaults@[k]).is_default,
                    None => forall|k: int|
                        0 <= k < i ==> !(#[trigger] self.vaults@[k]).is_default,
                },
            decreases self.vaults.len() - i,
        {
            if self.vaults[i].is_default {
                match found {
                    Some(at) => {
                        assert(self.vaults@[at as int].is_default
                            && self.vaults@[i as int].is_default);
                        return false;
                    },
                    None => {
                        found = Some(i);
                    },
                }
            }
            i = i + 1;
        }
        true
    }

    /// The default vault: the first that says so, else the first.
    pub fn default_vault(&self) -> (r: Result<&VaultConfig, Error>)
        ensures
            match r {
                Ok(vault) => default_position(self.vaults@) is Some && *vault
                    == self.vaults@[default_position(self.vaults@)->0],
                Err(error) => default_position(self.vaults@) is None && error@ == Fault::Config(
                    "No default vault configured"@,
                ),
            },
    {
        let mut i: usize = 0;
        while i < self.vaults.len()
            invariant
                i <= self.vaults.len(),
                forall|k: int| 0 <= k < i ==> !(#[trigger] self.vaults@[k]).is_default,
            decreases self.vaults.len() - i,
        {
            if self.vaults[i].is_default {
                proof {
                    lemma_first_default(self.vaults@, 0, i as int);
                }
                return Ok(&self.vaults[i]);
            }
            i = i + 1;
        }
        if self.vaults.len() > 0 {
            Ok(&self.vaults[0])
        } else {
            Err(Error::Config(copy("No default vault configured")))
        }
    }
}

} // verus!
