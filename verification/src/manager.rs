//! What the note functions of a vault may reach, and what they refuse.
use crate::config::{default_position, ServerConfig, VaultConfig, VaultGitConfig, WriteBackend};
use crate::error::{Error, Fault};
use crate::index::in_subtree;
use crate::paths::{
    begins_with, join_path, joined_path, lies_under, part_models, parts, parts_of, path_from,
    relative_to, Part, PathPart,
};
use crate::scan::{
    excluded_names, excluded_trees, names_left_out, plain_extensions, subtrees_left_out, ScanRules,
    ScanSpec, PROTECTED_COMPONENTS,
};
use crate::text::{chars_of, copy, has_text, same, texts};
use path_trav::PathTrav;
use vstd::prelude::*;

verus! {

// ---------------------------------------------------------------------------
// Paths
// ---------------------------------------------------------------------------

/// The parts of a path with `.` left out and each `..` taking back the part before
/// it.
pub open spec fn normalized(all: Seq<Part>) -> Seq<Part>
    decreases all.len(),
{
    if all.len() == 0 {
        all
    } else {
        let before = normalized(all.drop_last());
        match all.last() {
            Part::Cur => before,
            Part::Parent => if before.len() > 0 {
                before.drop_last()
            } else {
                before
            },
            _ => before.push(all.last()),
        }
    }
}

/// The parts of a path with `.` left out and each `..` taking back the part before
/// it.
pub fn normalize_path(path: &str) -> (out: Vec<PathPart>)
    ensures
        part_models(out@) == normalized(parts(path@)),
{
    let all = parts_of(path);
    let ghost model = parts(path@);
    let mut out: Vec<PathPart> = Vec::new();
    let mut i: usize = 0;
    assert(part_models(out@) =~= normalized(model.take(0)));
    while i < all.len()
        invariant
            i <= all.len(),
            model == part_models(all@),
            part_models(out@) == normalized(model.take(i as int)),
        decreases all.len() - i,
    {
        assert(model.take(i + 1).drop_last() =~= model.take(i as int));
        assert(model[i as int] == all@[i as int]@);
        let ghost before = part_models(out@);
        match &all[i] {
            PathPart::Cur => {},
            PathPart::Parent => {
                let gone = out.pop();
                assert(before.len() > 0 ==> part_models(out@) =~= before.drop_last());
                assert(before.len() == 0 ==> part_models(out@) =~= before);
            },
            PathPart::Root => {
                out.push(PathPart::Root);
                assert(part_models(out@) =~= before.push(Part::Root));
            },
            PathPart::Normal(name) => {
                out.push(PathPart::Normal(name.clone()));
                assert(part_models(out@) =~= before.push(Part::Normal(name@)));
            },
        }
        i = i + 1;
    }
    assert(model.take(i as int) =~= model);
    out
}

/// A normal form holds neither `.` nor `..`, so normalizing it changes nothing.
pub proof fn lemma_normalized_is_normal(all: Seq<Part>)
    ensures
        forall|i: int|
            0 <= i < normalized(all).len() ==> !((#[trigger] normalized(all)[i]) is Cur)
                && !(normalized(all)[i] is Parent),
        normalized(normalized(all)) == normalized(all),
    decreases all.len(),
{
    if all.len() > 0 {
        lemma_normalized_is_normal(all.drop_last());
        let before = normalized(all.drop_last());
        let after = normalized(all);
        assert forall|i: int| 0 <= i < after.len() implies !((#[trigger] after[i]) is Cur) && !(
        after[i] is Parent) by {
            if i < before.len() {
                assert(after[i] == before[i]);
            }
        }
    }
    lemma_plain_is_fixed(normalized(all));
}

proof fn lemma_plain_is_fixed(all: Seq<Part>)
    requires
        forall|i: int|
            0 <= i < all.len() ==> !((#[trigger] all[i]) is Cur) && !(all[i] is Parent),
    ensures
        normalized(all) == all,
    decreases all.len(),
{
    if all.len() > 0 {
        let front = all.drop_last();
        assert forall|i: int| 0 <= i < front.len() implies !((#[trigger] front[i]) is Cur) && !(
        front[i] is Parent) by {
            assert(front[i] == all[i]);
        }
        lemma_plain_is_fixed(front);
        assert(!(all[all.len() - 1] is Cur));
        assert(front.push(all.last()) =~= all);
    }
}

/// The root of a vault and a path, as they resolve on disk.
#[derive(Debug)]
pub struct OnDisk {
    pub root: String,
    pub path: String,
}

/// The root of a vault and a path as they resolve on disk, as texts.
pub struct Places {
    pub root: Seq<char>,
    pub path: Seq<char>,
}

/// The places, where they are known.
pub open spec fn places_of(on_disk: Option<OnDisk>) -> Option<Places> {
    match on_disk {
        Some(places) => Some(Places { root: places.root@, path: places.path@ }),
        None => None,
    }
}

/// Where a path of a request leads. It must not be known to leave the vault, and it must lie
/// there part by part: where it resolves on disk, or in its normal form where it is not known
/// to resolve, because nothing is there yet.
pub open spec fn resolution(
    vault_path: Seq<char>,
    path: Seq<char>,
    leaves: Option<bool>,
    places: Option<Places>,
) -> Result<Seq<char>, Fault> {
    let full = joined_path(vault_path, path);
    let inside = leaves != Some(true) && match places {
        Some(places) => lies_under(parts(places.path), parts(places.root)),
        None => lies_under(normalized(parts(full)), parts(vault_path)),
    };
    if inside {
        Ok(full)
    } else {
        Err(Fault::PathTraversalAttempt { path: full })
    }
}

/// A path that is not refused lies in the vault, whatever `..` it runs through and whatever
/// its name begins with: part by part where it resolves on disk, or in its normal form where
/// it is not there yet.
pub proof fn lemma_paths_stay_inside(
    vault_path: Seq<char>,
    path: Seq<char>,
    leaves: Option<bool>,
    places: Option<Places>,
)
    requires
        resolution(vault_path, path, leaves, places) is Ok,
    ensures
        places matches Some(places) ==> lies_under(parts(places.path), parts(places.root)),
        places is None ==> lies_under(
            normalized(parts(resolution(vault_path, path, leaves, places)->Ok_0)),
            parts(vault_path),
        ),
{
}

/// Whether a component may not be touched.
pub open spec fn is_protected(name: Seq<char>, excluded: Seq<Seq<char>>) -> bool {
    name == PROTECTED_COMPONENTS@[0]@ || excluded.contains(name)
}

/// The first component that may not be touched, if there is one.
pub open spec fn protected_in(rest: Seq<Part>, excluded: Seq<Seq<char>>) -> Option<Seq<char>>
    decreases rest.len(),
{
    if rest.len() == 0 {
        None
    } else {
        match protected_in(rest.drop_last(), excluded) {
            Some(name) => Some(name),
            None => match rest.last() {
                Part::Normal(name) => if is_protected(name, excluded) {
                    Some(name)
                } else {
                    None
                },
                _ => None,
            },
        }
    }
}

/// The first subtree that the parts lie in, if there is one.
pub open spec fn subtree_of(rest: Seq<Part>, subtrees: Seq<Seq<char>>) -> Option<Seq<char>>
    decreases subtrees.len(),
{
    if subtrees.len() == 0 {
        None
    } else {
        match subtree_of(rest, subtrees.drop_last()) {
            Some(tree) => Some(tree),
            None => if lies_under(rest, parts(subtrees.last())) {
                Some(subtrees.last())
            } else {
                None
            },
        }
    }
}

/// What keeps the parts below a vault from being touched, if anything.
pub open spec fn barrier(
    rest: Seq<Part>,
    excluded: Seq<Seq<char>>,
    subtrees: Seq<Seq<char>>,
) -> Option<Seq<char>> {
    match protected_in(rest, excluded) {
        Some(name) => Some(name),
        None => subtree_of(rest, subtrees),
    }
}

/// What keeps a path from being touched, if anything: a component of it below the
/// vault, as it is written or in its normal form. A path outside of the vault is not
/// this rule's business.
pub open spec fn path_barrier(
    path: Seq<char>,
    vault_path: Seq<char>,
    excluded: Seq<Seq<char>>,
    subtrees: Seq<Seq<char>>,
) -> Option<Seq<char>> {
    let base = parts(vault_path);
    let written = parts(path);
    let normal = normalized(written);
    let first = if lies_under(written, base) {
        barrier(written.skip(base.len() as int), excluded, subtrees)
    } else {
        None
    };
    if first is Some {
        first
    } else if lies_under(normal, base) {
        barrier(normal.skip(base.len() as int), excluded, subtrees)
    } else {
        None
    }
}

proof fn lemma_protected_prefix(rest: Seq<Part>, excluded: Seq<Seq<char>>, n: int)
    requires
        0 <= n <= rest.len(),
        protected_in(rest.take(n), excluded) is Some,
    ensures
        protected_in(rest, excluded) == protected_in(rest.take(n), excluded),
    decreases rest.len(),
{
    if n < rest.len() {
        assert(rest.drop_last().take(n) =~= rest.take(n));
        lemma_protected_prefix(rest.drop_last(), excluded, n);
    } else {
        assert(rest.take(n) =~= rest);
    }
}

/// The first component from `from` on that may not be touched.
fn find_protected(all: &Vec<PathPart>, from: usize, excluded: &Vec<String>) -> (r: Option<String>)
    requires
        from <= all.len(),
    ensures
        match r {
            Some(name) => protected_in(
                part_models(all@).skip(from as int),
                texts(excluded@),
            ) == Some(name@),
            None => protected_in(part_models(all@).skip(from as int), texts(excluded@)) is None,
        },
{
    let ghost rest = part_models(all@).skip(from as int);
    let mut i: usize = from;
    while i < all.len()
        invariant
            from <= i <= all.len(),
            rest == part_models(all@).skip(from as int),
            protected_in(rest.take(i - from), texts(excluded@)) is None,
        decreases all.len() - i,
    {
        assert(rest.take(i + 1 - from).drop_last() =~= rest.take(i - from));
        assert(rest[i - from] == all@[i as int]@);
        match &all[i] {
            PathPart::Normal(name) => {
                if same(name.as_str(), PROTECTED_COMPONENTS[0]) || has_text(
                    excluded,
                    name.as_str(),
                ) {
                    proof {
                        lemma_protected_prefix(rest, texts(excluded@), i + 1 - from);
                    }
                    return Some(name.clone());
                }
            },
            _ => {},
        }
        i = i + 1;
    }
    assert(rest.take(i - from) =~= rest);
    None
}

proof fn lemma_subtree_prefix(rest: Seq<Part>, subtrees: Seq<Seq<char>>, n: int)
    requires
        0 <= n <= subtrees.len(),
        subtree_of(rest, subtrees.take(n)) is Some,
    ensures
        subtree_of(rest, subtrees) == subtree_of(rest, subtrees.take(n)),
    decreases subtrees.len(),
{
    if n < subtrees.len() {
        assert(subtrees.drop_last().take(n) =~= subtrees.take(n));
        lemma_subtree_prefix(rest, subtrees.drop_last(), n);
    } else {
        assert(subtrees.take(n) =~= subtrees);
    }
}

/// The first subtree that the parts lie in.
fn find_subtree(rest: &Vec<PathPart>, subtrees: &Vec<String>) -> (r: Option<String>)
    ensures
        match r {
            Some(tree) => subtree_of(part_models(rest@), texts(subtrees@)) == Some(tree@),
            None => subtree_of(part_models(rest@), texts(subtrees@)) is None,
        },
{
    let ghost model = part_models(rest@);
    let ghost trees = texts(subtrees@);
    let mut i: usize = 0;
    while i < subtrees.len()
        invariant
            i <= subtrees.len(),
            model == part_models(rest@),
            trees == texts(subtrees@),
            subtree_of(model, trees.take(i as int)) is None,
        decreases subtrees.len() - i,
    {
        assert(trees.take(i + 1).drop_last() =~= trees.take(i as int));
        assert(trees[i as int] == subtrees@[i as int]@);
        let base = parts_of(subtrees[i].as_str());
        if begins_with(rest, &base) {
            proof {
                lemma_subtree_prefix(model, trees, i + 1);
            }
            return Some(subtrees[i].clone());
        }
        i = i + 1;
    }
    assert(trees.take(i as int) =~= trees);
    None
}

/// What keeps the parts from being touched, where they lie below a base.
fn find_barrier(
    mut all: Vec<PathPart>,
    base: &Vec<PathPart>,
    excluded: &Vec<String>,
    subtrees: &Vec<String>,
) -> (r: Option<String>)
    ensures
        match r {
            Some(what) => lies_under(part_models(all@), part_models(base@)) && barrier(
                part_models(all@).skip(base.len() as int),
                texts(excluded@),
                texts(subtrees@),
            ) == Some(what@),
            None => lies_under(part_models(all@), part_models(base@)) ==> barrier(
                part_models(all@).skip(base.len() as int),
                texts(excluded@),
                texts(subtrees@),
            ) is None,
        },
{
    let ghost model = part_models(all@);
    if !begins_with(&all, base) {
        return None;
    }
    match find_protected(&all, base.len(), excluded) {
        Some(name) => Some(name),
        None => {
            let rest = all.split_off(base.len());
            assert(part_models(rest@) =~= model.skip(base.len() as int));
            find_subtree(&rest, subtrees)
        },
    }
}

/// `path_trav::PathTrav::is_path_trav` resolves both paths on disk and compares the second
/// with the first as texts: it answers whether the second does not begin with the characters
/// of the first, as many as the first has bytes. It fails where one of them is not there or is
/// no text. Nothing is claimed of the answer, which depends on what is on disk. That it does
/// not object is not enough for a path to lie below the root: `/vault2` begins like `/vault`.
#[verifier::external_body]
fn leaves_root(root: &str, path: &str) -> (r: Option<bool>) {
    std::path::Path::new(root).is_path_trav(std::path::Path::new(path)).ok()
}

// ---------------------------------------------------------------------------
// The manager
// ---------------------------------------------------------------------------

/// What a caller holds a change against.
#[derive(Debug)]
pub enum Precondition {
    /// Nothing is asked.
    Blind,
    /// The file must be there.
    ExpectExists,
    /// The file must have this version.
    ExpectBlob(String),
}

/// The default vault of a server, with the rules for its paths.
#[derive(Debug)]
pub struct VaultManager {
    config: ServerConfig,
    vault_path: String,
    name: String,
    write_backend: WriteBackend,
    include_ignored: bool,
    excluded: Vec<String>,
    subtrees: Vec<String>,
    scan_spec: ScanSpec,
}

/// The model of a manager.
pub struct Managed {
    pub vault_path: Seq<char>,
    pub name: Seq<char>,
    pub write_backend: WriteBackend,
    /// Whether paths that git ignores are committed all the same.
    pub include_ignored: bool,
    pub excluded: Seq<Seq<char>>,
    pub subtrees: Seq<Seq<char>>,
    pub max_file_size: u64,
    pub scan: ScanRules,
}

impl View for VaultManager {
    type V = Managed;

    closed spec fn view(&self) -> Managed {
        Managed {
            vault_path: self.vault_path@,
            name: self.name@,
            write_backend: self.write_backend,
            include_ignored: self.include_ignored,
            excluded: texts(self.excluded@),
            subtrees: texts(self.subtrees@),
            max_file_size: self.config.max_file_size,
            scan: self.scan_spec@,
        }
    }
}

/// The manager of the default vault of a server.
pub open spec fn managed(config: ServerConfig, vault: VaultConfig) -> Managed {
    Managed {
        vault_path: vault.path@,
        name: vault.name@,
        write_backend: vault.write_backend,
        include_ignored: match vault.git {
            Some(git) => git.include_ignored,
            None => true,
        },
        excluded: excluded_names(config),
        subtrees: excluded_trees(config),
        max_file_size: config.max_file_size,
        scan: ScanRules {
            root: vault.path@,
            excluded: excluded_names(config),
            excluded_subtrees: excluded_trees(config),
            allowed_extensions: plain_extensions(texts(config.allowed_extensions@)),
            max_file_size: config.max_file_size,
        },
    }
}

/// What is said of a path that may not be touched, if anything.
pub open spec fn policy_fault(vault: Managed, resolved: Seq<char>) -> Option<Fault> {
    match path_barrier(resolved, vault.vault_path, vault.excluded, vault.subtrees) {
        Some(component) => Some(Fault::ProtectedPath { path: resolved, component }),
        None => None,
    }
}

/// Where a path of a request to the note functions leads: within the vault, and not
/// under anything protected.
pub open spec fn note_resolution(
    vault: Managed,
    path: Seq<char>,
    leaves: Option<bool>,
    places: Option<Places>,
) -> Result<Seq<char>, Fault> {
    match resolution(vault.vault_path, path, leaves, places) {
        Ok(full) => match policy_fault(vault, full) {
            Some(fault) => Err(fault),
            None => Ok(full),
        },
        Err(fault) => Err(fault),
    }
}

/// Whether a result is the one that a resolution gives.
pub open spec fn answers(r: Result<String, Error>, wanted: Result<Seq<char>, Fault>) -> bool {
    match (r, wanted) {
        (Ok(path), Ok(full)) => path@ == full,
        (Err(error), Err(fault)) => error@ == fault,
        _ => false,
    }
}

/// The text with each backslash turned into a slash.
pub open spec fn forward_slashes(s: Seq<char>) -> Seq<char> {
    s.map_values(|c: char| if c == '\\' { '/' } else { c })
}

/// What is said when a file changed since it was read.
pub open spec fn changed_since_read(expected: Seq<char>, actual: Seq<char>) -> Seq<char> {
    "File modified since read. Expected hash: "@ + expected + ", actual: "@ + actual
        + ". Re-read the file and try again."@
}

impl VaultManager {
    /// The manager of the default vault of a server.
    pub fn new(config: ServerConfig) -> (r: Result<VaultManager, Error>)
        ensures
            match r {
                Ok(manager) => default_position(config.vaults@) is Some && manager@ == managed(
                    config,
                    config.vaults@[default_position(config.vaults@)->0],
                ),
                Err(error) => default_position(config.vaults@) is None && error@ == Fault::Config(
                    "No default vault configured"@,
                ),
            },
    {
        let vault = match config.default_vault() {
            Ok(vault) => vault,
            Err(error) => {
                return Err(error);
            },
        };
        let vault_path = vault.path.clone();
        let name = vault.name.clone();
        let write_backend = vault.write_backend;
        let include_ignored: bool = match &vault.git {
            Some(git) => git.include_ignored,
            None => VaultGitConfig::default().include_ignored,
        };
        let excluded = names_left_out(&config);
        let subtrees = subtrees_left_out(&config);
        let scan_spec = ScanSpec::new(&config, vault_path.as_str());
        Ok(
            VaultManager {
                config,
                vault_path,
                name,
                write_backend,
                include_ignored,
                excluded,
                subtrees,
                scan_spec,
            },
        )
    }

    /// The directory of the vault.
    pub fn vault_path(&self) -> (r: &str)
        ensures
            r@ == self@.vault_path,
    {
        self.vault_path.as_str()
    }

    /// The name of the vault.
    pub fn vault_name(&self) -> (r: &str)
        ensures
            r@ == self@.name,
    {
        self.name.as_str()
    }

    /// What writes the changes of the vault.
    pub fn write_backend(&self) -> (r: WriteBackend)
        ensures
            r == self@.write_backend,
    {
        self.write_backend
    }

    /// Whether paths that git ignores are committed all the same.
    pub fn include_ignored(&self) -> (r: bool)
        ensures
            r == self@.include_ignored,
    {
        self.include_ignored
    }

    /// What a scan of the vault needs to know.
    pub fn scan_spec(&self) -> (r: &ScanSpec)
        ensures
            r@ == self@.scan,
    {
        &self.scan_spec
    }

    /// The subtrees that are left out.
    pub fn excluded_subtrees(&self) -> (r: &Vec<String>)
        ensures
            texts(r@) == self@.subtrees,
    {
        &self.subtrees
    }

    /// Whether a vault-relative path lies in a subtree that is left out.
    pub fn is_path_excluded(&self, path: &str) -> (r: bool)
        ensures
            r == in_subtree(path@, self@.subtrees),
    {
        crate::index::lies_in_subtree(path, &self.subtrees)
    }

    /// A path as it is written from the vault, with slashes.
    pub fn relative_path(&self, path: &str) -> (r: String)
        ensures
            r@ == forward_slashes(relative_to(path@, self@.vault_path)),
    {
        let relative = path_from(path, self.vault_path.as_str());
        let chars = chars_of(relative.as_str());
        let mut out: String = String::new();
        let mut i: usize = 0;
        while i < chars.len()
            invariant
                i <= chars.len(),
                chars@ == relative@,
                out@ == forward_slashes(relative@.take(i as int)),
            decreases chars.len() - i,
        {
            out.push(
                if chars[i] == '\\' {
                    '/'
                } else {
                    chars[i]
                },
            );
            assert(out@ =~= forward_slashes(relative@.take(i + 1)));
            i = i + 1;
        }
        assert(relative@.take(i as int) =~= relative@);
        out
    }

    /// Refuses a path that lies under something protected.
    pub fn ensure_path_is_not_protected(&self, resolved: &str) -> (r: Result<(), Error>)
        ensures
            match r {
                Ok(_) => policy_fault(self@, resolved@) is None,
                Err(error) => policy_fault(self@, resolved@) == Some(error@),
            },
    {
        let base = parts_of(self.vault_path.as_str());
        assert(part_models(base@).len() == base.len());
        let written = find_barrier(
            parts_of(resolved),
            &base,
            &self.excluded,
            &self.subtrees,
        );
        match written {
            Some(component) => {
                return Err(Error::ProtectedPath { path: copy(resolved), component });
            },
            None => {},
        }
        let normal = find_barrier(
            normalize_path(resolved),
            &base,
            &self.excluded,
            &self.subtrees,
        );
        match normal {
            Some(component) => Err(Error::ProtectedPath { path: copy(resolved), component }),
            None => Ok(()),
        }
    }

    /// Where a path leads, given what is known of whether it leaves the vault, and where it
    /// resolves on disk. Only the boundary of the vault is looked at.
    pub fn resolve_within_vault(
        &self,
        path: &str,
        leaves: Option<bool>,
        on_disk: &Option<OnDisk>,
    ) -> (r: Result<String, Error>)
        ensures
            answers(r, resolution(self@.vault_path, path@, leaves, places_of(*on_disk))),
    {
        let full = join_path(self.vault_path.as_str(), path);
        let known_outside: bool = match leaves {
            Some(outside) => outside,
            None => false,
        };
        let inside: bool = !known_outside && match on_disk {
            Some(places) => begins_with(
                &parts_of(places.path.as_str()),
                &parts_of(places.root.as_str()),
            ),
            None => begins_with(
                &normalize_path(full.as_str()),
                &parts_of(self.vault_path.as_str()),
            ),
        };
        if inside {
            Ok(full)
        } else {
            Err(Error::PathTraversalAttempt { path: full })
        }
    }

    /// Where a path leads for the note functions, given what is known of whether it
    /// leaves the vault, and where it resolves on disk.
    pub fn resolve_note(
        &self,
        path: &str,
        leaves: Option<bool>,
        on_disk: &Option<OnDisk>,
    ) -> (r: Result<String, Error>)
        ensures
            answers(r, note_resolution(self@, path@, leaves, places_of(*on_disk))),
    {
        let full = match self.resolve_within_vault(path, leaves, on_disk) {
            Ok(full) => full,
            Err(error) => {
                return Err(error);
            },
        };
        match self.ensure_path_is_not_protected(full.as_str()) {
            Ok(_) => Ok(full),
            Err(error) => Err(error),
        }
    }

    /// Where a path of a request begins to be looked up: below the vault, or where it is
    /// where it is absolute.
    pub fn full_path(&self, path: &str) -> (r: String)
        ensures
            r@ == joined_path(self@.vault_path, path@),
    {
        join_path(self.vault_path.as_str(), path)
    }

    /// Where a path leads, given where it resolves on disk. Nothing but the boundary of the
    /// vault is looked at.
    pub fn resolve_path_bypassing_policy(&self, path: &str, on_disk: &Option<OnDisk>) -> (r: Result<
        String,
        Error,
    >)
        ensures
            exists|leaves: Option<bool>|
                answers(
                    r,
                    #[trigger] resolution(self@.vault_path, path@, leaves, places_of(*on_disk)),
                ),
    {
        let full = self.full_path(path);
        let leaves: Option<bool> = leaves_root(self.vault_path.as_str(), full.as_str());
        self.resolve_within_vault(path, leaves, on_disk)
    }

    /// Where a path leads for the note functions, given where it resolves on disk.
    pub fn resolve_path(&self, path: &str, on_disk: &Option<OnDisk>) -> (r: Result<String, Error>)
        ensures
            exists|leaves: Option<bool>|
                answers(
                    r,
                    #[trigger] note_resolution(self@, path@, leaves, places_of(*on_disk)),
                ),
    {
        let full = self.full_path(path);
        let leaves: Option<bool> = leaves_root(self.vault_path.as_str(), full.as_str());
        self.resolve_note(path, leaves, on_disk)
    }

    /// Refuses a file of more bytes than the limit. Where there is no file, its size
    /// is not this check's business.
    pub fn ensure_size_within_limit(&self, resolved: &str, size: Option<u64>) -> (r: Result<
        (),
        Error,
    >)
        ensures
            match r {
                Ok(_) => size matches Some(bytes) ==> bytes <= self@.max_file_size,
                Err(error) => size matches Some(bytes) && bytes > self@.max_file_size && error@
                    == (Fault::FileTooLarge {
                    path: resolved@,
                    size: bytes,
                    max: self@.max_file_size,
                }),
            },
    {
        match size {
            Some(bytes) => if bytes > self.config.max_file_size {
                Err(
                    Error::FileTooLarge {
                        path: copy(resolved),
                        size: bytes,
                        max: self.config.max_file_size,
                    },
                )
            } else {
                Ok(())
            },
            None => Ok(()),
        }
    }

    /// What a write is called within the vault; refused where it is too large.
    pub fn plan_write(&self, resolved: &str, size: u64) -> (r: Result<String, Error>)
        ensures
            match r {
                Ok(key) => size <= self@.max_file_size && key@ == forward_slashes(
                    relative_to(resolved@, self@.vault_path),
                ),
                Err(error) => size > self@.max_file_size && error@ == (Fault::FileTooLarge {
                    path: resolved@,
                    size,
                    max: self@.max_file_size,
                }),
            },
    {
        match self.ensure_size_within_limit(resolved, Some(size)) {
            Ok(_) => Ok(self.relative_path(resolved)),
            Err(error) => Err(error),
        }
    }

    /// Refuses an edit of a file whose version is not the one that was expected.
    pub fn check_edit(&self, precondition: &Precondition, actual: &str) -> (r: Result<(), Error>)
        ensures
            match r {
                Ok(_) => precondition matches Precondition::ExpectBlob(expected) ==> expected@
                    == actual@,
                Err(error) => precondition matches Precondition::ExpectBlob(expected)
                    && expected@ != actual@ && error@ == (Fault::ConcurrencyError {
                    reason: changed_since_read(expected@, actual@),
                }),
            },
    {
        match precondition {
            Precondition::ExpectBlob(expected) => {
                if same(expected.as_str(), actual) {
                    return Ok(());
                }
                let mut reason: String = String::new();
                reason.append("File modified since read. Expected hash: ");
                reason.append(expected.as_str());
                reason.append(", actual: ");
                reason.append(actual);
                reason.append(". Re-read the file and try again.");
                assert(reason@ =~= changed_since_read(expected@, actual@));
                Err(Error::ConcurrencyError { reason })
            },
            _ => Ok(()),
        }
    }
}

// ---------------------------------------------------------------------------
// Laws
// ---------------------------------------------------------------------------

/// No path of the note functions leads to a protected component: whatever is known
/// of the path, one that is not refused runs through none, neither as it is written
/// nor in its normal form.
pub proof fn lemma_protected_paths_are_refused(
    vault: Managed,
    path: Seq<char>,
    leaves: Option<bool>,
    places: Option<Places>,
    i: int,
)
    requires
        note_resolution(vault, path, leaves, places) is Ok,
        ({
            let base = parts(vault.vault_path);
            let full = parts(note_resolution(vault, path, leaves, places)->Ok_0);
            &&& lies_under(full, base)
            &&& base.len() <= i < full.len()
        }),
    ensures
        ({
            let full = parts(note_resolution(vault, path, leaves, places)->Ok_0);
            full[i] matches Part::Normal(name) ==> !is_protected(name, vault.excluded)
        }),
{
    let base = parts(vault.vault_path);
    let full = parts(note_resolution(vault, path, leaves, places)->Ok_0);
    let rest = full.skip(base.len() as int);
    assert(protected_in(rest, vault.excluded) is None);
    lemma_unprotected(rest, vault.excluded, i - base.len());
    assert(rest[i - base.len()] == full[i]);
}

/// The same for the normal form of the path.
pub proof fn lemma_protected_normal_forms_are_refused(
    vault: Managed,
    path: Seq<char>,
    leaves: Option<bool>,
    places: Option<Places>,
    i: int,
)
    requires
        note_resolution(vault, path, leaves, places) is Ok,
        ({
            let base = parts(vault.vault_path);
            let normal = normalized(parts(note_resolution(vault, path, leaves, places)->Ok_0));
            &&& lies_under(normal, base)
            &&& base.len() <= i < normal.len()
        }),
    ensures
        ({
            let normal = normalized(parts(note_resolution(vault, path, leaves, places)->Ok_0));
            normal[i] matches Part::Normal(name) ==> !is_protected(name, vault.excluded)
        }),
{
    let base = parts(vault.vault_path);
    let normal = normalized(parts(note_resolution(vault, path, leaves, places)->Ok_0));
    let rest = normal.skip(base.len() as int);
    assert(protected_in(rest, vault.excluded) is None);
    lemma_unprotected(rest, vault.excluded, i - base.len());
    assert(rest[i - base.len()] == normal[i]);
}

proof fn lemma_unprotected(rest: Seq<Part>, excluded: Seq<Seq<char>>, i: int)
    requires
        protected_in(rest, excluded) is None,
        0 <= i < rest.len(),
    ensures
        rest[i] matches Part::Normal(name) ==> !is_protected(name, excluded),
    decreases rest.len(),
{
    if i < rest.len() - 1 {
        lemma_unprotected(rest.drop_last(), excluded, i);
    }
}

} // verus!
