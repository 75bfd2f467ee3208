//! Where the vaults of a project are remembered.
use crate::error::{Error, Fault};
use crate::hashing::{hash_path, path_id};
use crate::paths::{
    join_path, joined_path, part_models, parts, parts_of, written, written_parts, PathPart,
};
use crate::text::{copy, opt_text, texts};
use vstd::prelude::*;

verus! {

/// What is remembered beside the vaults of a project.
#[derive(Debug)]
pub struct CacheMetadata {
    /// The name of the active vault.
    pub active_vault: String,
    /// When it was written, in seconds since the epoch.
    pub last_updated: u64,
    /// The version of the layout.
    pub version: u32,
    pub project_id: String,
    pub working_dir: String,
}

/// The files in which the vaults of one project are remembered.
#[derive(Debug)]
pub struct VaultCache {
    cache_dir: String,
    project_cache_dir: String,
    vaults_file: String,
    metadata_file: String,
    project_id: String,
    working_dir: String,
}

/// The model of a cache: the root of all caches, the project and the directory it
/// was opened from. The files follow from these.
pub struct Cache {
    pub cache_dir: Seq<char>,
    pub project_id: Seq<char>,
    pub working_dir: Seq<char>,
}

/// The directory of a project.
pub open spec fn project_dir(cache_dir: Seq<char>, project_id: Seq<char>) -> Seq<char> {
    joined_path(joined_path(cache_dir, "projects"@), project_id)
}

impl View for VaultCache {
    type V = Cache;

    closed spec fn view(&self) -> Cache {
        Cache {
            cache_dir: self.cache_dir@,
            project_id: self.project_id@,
            working_dir: self.working_dir@,
        }
    }
}

// ---------------------------------------------------------------------------
// Finding the project
// ---------------------------------------------------------------------------

/// The names that mark the root of a project.
pub open spec fn marker_names() -> Seq<Seq<char>> {
    seq![".git"@, ".obsidian"@, "Cargo.toml"@, "package.json"@, ".project"@]
}

/// The names that mark the root of a project.
pub fn project_markers() -> (out: Vec<String>)
    ensures
        texts(out@) == marker_names(),
{
    let mut out: Vec<String> = Vec::new();
    out.push(copy(".git"));
    out.push(copy(".obsidian"));
    out.push(copy("Cargo.toml"));
    out.push(copy("package.json"));
    out.push(copy(".project"));
    assert(texts(out@) =~= marker_names());
    out
}

/// The directories above the first parts of a path, the nearest first, as they are written in
/// it. There is nothing above the root.
pub open spec fn above(path: Seq<char>, count: int) -> Seq<Seq<char>>
    decreases count,
{
    if count <= 0 || parts(path)[count - 1] is Root {
        Seq::empty()
    } else {
        seq![written(path, 0, count - 1)] + above(path, count - 1)
    }
}

/// The directories that may be the root of a project: one and all above it.
pub open spec fn candidates(start: Seq<char>) -> Seq<Seq<char>> {
    seq![start] + above(start, parts(start).len() as int)
}

/// The directories that may be the root of a project, the nearest first.
pub fn project_candidates(start: &str) -> (out: Vec<String>)
    ensures
        texts(out@) == candidates(start@),
{
    let mut out: Vec<String> = Vec::new();
    out.push(copy(start));
    let all = parts_of(start);
    let ghost model = parts(start@);
    let ghost whole = candidates(start@);
    assert(model.len() == all.len());
    assert(texts(out@) =~= seq![start@]);
    let mut count: usize = all.len();
    let mut climbing: bool = true;
    while climbing
        invariant
            count <= all.len(),
            model == part_models(all@),
            model == parts(start@),
            texts(out@) + above(start@, count as int) == whole,
            !climbing ==> above(start@, count as int).len() == 0,
        decreases count, (if climbing { 1int } else { 0int }),
    {
        let stop: bool = count == 0 || match &all[count - 1] {
            PathPart::Root => true,
            _ => false,
        };
        assert(count > 0 ==> model[count - 1] == all@[count - 1]@);
        if stop {
            climbing = false;
        } else {
            let ghost before = texts(out@);
            let shown = written_parts(start, 0, count - 1);
            out.push(shown);
            assert(texts(out@) =~= before.push(shown@));
            assert(texts(out@) + above(start@, count - 1) =~= before + above(start@, count as int));
            count = count - 1;
        }
    }
    assert(texts(out@) =~= whole);
    out
}

/// The root of the project: the nearest directory with a marker, else the one that
/// the search began at.
pub open spec fn root_of_project(start: Seq<char>, marked: Seq<bool>) -> Seq<char> {
    root_from(start, marked, 0)
}

/// The first directory with a marker from `from` on, else the start.
pub open spec fn root_from(start: Seq<char>, marked: Seq<bool>, from: int) -> Seq<char>
    decreases marked.len() - from,
{
    if from >= marked.len() {
        start
    } else if marked[from] {
        candidates(start)[from]
    } else {
        root_from(start, marked, from + 1)
    }
}

/// The root of the project, given for each candidate whether a marker was found in
/// it.
pub fn project_root(start: &str, marked: &Vec<bool>) -> (r: String)
    requires
        marked.len() == candidates(start@).len(),
    ensures
        r@ == root_of_project(start@, marked@),
{
    let all = project_candidates(start);
    assert(texts(all@).len() == all.len());
    let mut i: usize = 0;
    while i < marked.len()
        invariant
            i <= marked.len() == all.len(),
            texts(all@) == candidates(start@),
            root_of_project(start@, marked@) == root_from(start@, marked@, i as int),
        decreases marked.len() - i,
    {
        if marked[i] {
            assert(candidates(start@)[i as int] == all@[i as int]@);
            return all[i].clone();
        }
        i = i + 1;
    }
    copy(start)
}

/// The identifier of a project: that of its root.
pub fn get_project_id(root: &str) -> (r: String)
    ensures
        r@ == path_id(root@),
        r@.len() == 16,
{
    hash_path(root)
}

// ---------------------------------------------------------------------------
// The cache
// ---------------------------------------------------------------------------

/// The root of all caches: below the cache directory where one is set; else on Windows below
/// the directory for local data of applications, or in the home directory where that is not
/// set; elsewhere below the cache directory in the home directory.
pub open spec fn cache_place(
    on_windows: bool,
    cache_home: Option<Seq<char>>,
    local_app_data: Option<Seq<char>>,
    home: Option<Seq<char>>,
) -> Option<Seq<char>> {
    match (cache_home, local_app_data, home) {
        (Some(base), _, _) => Some(joined_path(base, "turbovault"@)),
        (None, Some(base), _) if on_windows => Some(
            joined_path(joined_path(base, "turbovault"@), "cache"@),
        ),
        (None, _, Some(base)) => if on_windows {
            Some(joined_path(joined_path(base, ".turbovault"@), "cache"@))
        } else {
            Some(joined_path(joined_path(base, ".cache"@), "turbovault"@))
        },
        _ => None,
    }
}

/// The root of all caches, given the platform and what is set of `XDG_CACHE_HOME`,
/// `LOCALAPPDATA` and `HOME`.
pub fn get_cache_dir(
    on_windows: bool,
    cache_home: &Option<String>,
    local_app_data: &Option<String>,
    home: &Option<String>,
) -> (r: Result<String, Error>)
    ensures
        match (
            r,
            cache_place(
                on_windows,
                opt_text(*cache_home),
                opt_text(*local_app_data),
                opt_text(*home),
            ),
        ) {
            (Ok(dir), Some(place)) => dir@ == place,
            (Err(error), None) => error@ == Fault::Config(
                "Cannot determine cache directory: HOME not set and no platform-specific override found"@,
            ),
            _ => false,
        },
{
    if let Some(base) = cache_home {
        return Ok(join_path(base.as_str(), "turbovault"));
    }
    if on_windows {
        if let Some(base) = local_app_data {
            return Ok(join_path(join_path(base.as_str(), "turbovault").as_str(), "cache"));
        }
    }
    match home {
        Some(base) => if on_windows {
            Ok(join_path(join_path(base.as_str(), ".turbovault").as_str(), "cache"))
        } else {
            Ok(join_path(join_path(base.as_str(), ".cache").as_str(), "turbovault"))
        },
        None => Err(
            Error::Config(
                copy(
                    "Cannot determine cache directory: HOME not set and no platform-specific override found",
                ),
            ),
        ),
    }
}

/// Whole seconds since the epoch, none before it.
pub fn current_timestamp(now_nanos: i128) -> (secs: u64)
    ensures
        secs == if now_nanos < 0 {
            0int
        } else if now_nanos as int / 1_000_000_000 > u64::MAX {
            u64::MAX as int
        } else {
            now_nanos as int / 1_000_000_000
        },
{
    if now_nanos < 0 {
        return 0;
    }
    let secs: i128 = now_nanos / 1_000_000_000;
    if secs > u64::MAX as i128 {
        u64::MAX
    } else {
        secs as u64
    }
}

impl VaultCache {
    /// What always holds: the files lie in the directory of the project.
    pub closed spec fn wf(&self) -> bool {
        &&& self.project_cache_dir@ == project_dir(self.cache_dir@, self.project_id@)
        &&& self.vaults_file@ == joined_path(self.project_cache_dir@, "vaults.yaml"@)
        &&& self.metadata_file@ == joined_path(self.project_cache_dir@, "metadata.json"@)
    }

    /// The cache of the project with this root, opened from a directory.
    pub fn init_with_project_in(working_dir: &str, root: &str, cache_dir: &str) -> (r: VaultCache)
        ensures
            r.wf(),
            r@ == (Cache {
                cache_dir: cache_dir@,
                project_id: path_id(root@),
                working_dir: working_dir@,
            }),
    {
        let project_id = get_project_id(root);
        let project_cache_dir = join_path(
            join_path(cache_dir, "projects").as_str(),
            project_id.as_str(),
        );
        VaultCache {
            cache_dir: copy(cache_dir),
            vaults_file: join_path(project_cache_dir.as_str(), "vaults.yaml"),
            metadata_file: join_path(project_cache_dir.as_str(), "metadata.json"),
            project_cache_dir,
            project_id,
            working_dir: copy(working_dir),
        }
    }

    /// What is written beside the vaults.
    pub fn metadata(&self, active_vault: &str, now: u64) -> (r: CacheMetadata)
        ensures
            r.active_vault@ == active_vault@,
            r.last_updated == now,
            r.version == 1,
            r.project_id@ == self@.project_id,
            r.working_dir@ == self@.working_dir,
    {
        CacheMetadata {
            active_vault: copy(active_vault),
            last_updated: now,
            version: 1,
            project_id: self.project_id.clone(),
            working_dir: self.working_dir.clone(),
        }
    }

    /// What stands for the metadata where nothing was written yet.
    pub fn missing_metadata(&self) -> (r: CacheMetadata)
        ensures
            r.active_vault@.len() == 0,
            r.last_updated == 0,
            r.version == 1,
            r.project_id@ == self@.project_id,
            r.working_dir@ == self@.working_dir,
    {
        proof {
            reveal_strlit("");
        }
        self.metadata("", 0)
    }

    /// The root of all caches.
    pub fn cache_dir(&self) -> (r: &str)
        ensures
            r@ == self@.cache_dir,
    {
        self.cache_dir.as_str()
    }

    /// The directory of the project.
    pub fn project_cache_dir(&self) -> (r: &str)
        requires
            self.wf(),
        ensures
            r@ == project_dir(self@.cache_dir, self@.project_id),
    {
        self.project_cache_dir.as_str()
    }

    /// The file of the vaults.
    pub fn vaults_file(&self) -> (r: &str)
        requires
            self.wf(),
        ensures
            r@ == joined_path(project_dir(self@.cache_dir, self@.project_id), "vaults.yaml"@),
    {
        self.vaults_file.as_str()
    }

    /// The file of the metadata.
    pub fn metadata_file(&self) -> (r: &str)
        requires
            self.wf(),
        ensures
            r@ == joined_path(project_dir(self@.cache_dir, self@.project_id), "metadata.json"@),
    {
        self.metadata_file.as_str()
    }

    /// The identifier of the project.
    pub fn project_id(&self) -> (r: &str)
        ensures
            r@ == self@.project_id,
    {
        self.project_id.as_str()
    }

    /// The directory that the cache was opened from.
    pub fn working_dir(&self) -> (r: &str)
        ensures
            r@ == self@.working_dir,
    {
        self.working_dir.as_str()
    }
}

/// Without any marker the project is the directory that the search began at.
pub proof fn lemma_unmarked_project_is_start(start: Seq<char>, marked: Seq<bool>)
    requires
        forall|i: int| 0 <= i < marked.len() ==> !#[trigger] marked[i],
    ensures
        root_of_project(start, marked) == start,
{
    lemma_unmarked_from(start, marked, 0);
}

proof fn lemma_unmarked_from(start: Seq<char>, marked: Seq<bool>, from: int)
    requires
        0 <= from,
        forall|i: int| 0 <= i < marked.len() ==> !#[trigger] marked[i],
    ensures
        root_from(start, marked, from) == start,
    decreases marked.len() - from,
{
    if from < marked.len() {
        assert(!marked[from]);
        lemma_unmarked_from(start, marked, from + 1);
    }
}

} // verus!
