//! Several vaults under one server, one of them active.
use crate::config::{default_position, vault_names, ServerConfig, Vault, VaultConfig, WriteBackend};
use crate::error::{around, wrap, Error, Fault};
use crate::sorting::{
    comes_before, lemma_text_order_asymmetric, lemma_text_order_total, lemma_text_order_transitive,
    text_before,
};
use crate::text::{copy, copy_texts, opt_texts, same, texts};
use vstd::prelude::*;

verus! {

/// How many vaults can be registered at once.
pub const MAX_VAULTS: usize = 50;

/// What is told of a registered vault.
#[derive(Debug)]
pub struct VaultInfo {
    pub name: String,
    pub path: String,
    /// Whether this is the active vault.
    pub is_default: bool,
    /// The name of the write backend.
    pub write_backend: String,
    /// Whether every change must come with a commit message.
    pub require_commit_message: bool,
    pub config: VaultConfig,
}

/// The model of what is told of a registered vault.
pub struct Info {
    pub name: Seq<char>,
    pub path: Seq<char>,
    pub is_default: bool,
    pub write_backend: Seq<char>,
    pub require_commit_message: bool,
    pub config: Vault,
}

impl View for VaultInfo {
    type V = Info;

    open spec fn view(&self) -> Info {
        Info {
            name: self.name@,
            path: self.path@,
            is_default: self.is_default,
            write_backend: self.write_backend@,
            require_commit_message: self.require_commit_message,
            config: self.config@,
        }
    }
}

/// Whether changes of a vault must come with a commit message: never on the direct
/// backend, which makes no commits.
pub open spec fn needs_message(vault: Vault) -> bool {
    vault.write_backend == WriteBackend::Git && (vault.git matches Some(git)
        && git.require_commit_message)
}

/// What is told of a vault.
pub open spec fn info_of(vault: Vault, active: Seq<char>) -> Info {
    Info {
        name: vault.name,
        path: vault.path,
        is_default: vault.name == active,
        write_backend: vault.write_backend.label(),
        require_commit_message: needs_message(vault),
        config: vault,
    }
}

/// The vaults by name.
pub open spec fn by_name(vaults: Seq<VaultConfig>) -> Map<Seq<char>, Vault> {
    Map::new(
        |name: Seq<char>| vault_names(vaults).contains(name),
        |name: Seq<char>| vaults[vault_names(vaults).index_of(name)]@,
    )
}

/// The model of a manager: the vaults by name, and the name of the active one,
/// which is empty where no vault is registered.
pub struct Registry {
    pub vaults: Map<Seq<char>, Vault>,
    pub active: Seq<char>,
}

/// What always holds: the active vault is registered, or no vault is.
pub open spec fn registry_ok(registry: Registry) -> bool {
    if registry.vaults.dom() == Set::<Seq<char>>::empty() {
        registry.active == Seq::<char>::empty()
    } else {
        registry.vaults.contains_key(registry.active)
    }
}

/// Whether a name is the first of those registered, in the order of texts.
pub open spec fn is_first_name(vaults: Map<Seq<char>, Vault>, name: Seq<char>) -> bool {
    vaults.contains_key(name) && forall|other: Seq<char>|
        #[trigger] vaults.contains_key(other) ==> !text_before(other, name)
}

/// What is said of a vault that is not registered.
pub open spec fn vault_not_found(name: Seq<char>) -> Fault {
    Fault::NotFound(around("Vault '"@, name, "' not found"@))
}

/// Several vaults, one of them active.
#[derive(Debug)]
pub struct MultiVaultManager {
    vaults: Vec<VaultConfig>,
    default_vault: String,
    config: ServerConfig,
}

impl View for MultiVaultManager {
    type V = Registry;

    closed spec fn view(&self) -> Registry {
        Registry { vaults: by_name(self.vaults@), active: self.default_vault@ }
    }
}

proof fn lemma_lookup(vaults: Seq<VaultConfig>, at: int)
    requires
        0 <= at < vaults.len(),
        vault_names(vaults).no_duplicates(),
    ensures
        by_name(vaults).contains_key(vaults[at].name@),
        by_name(vaults)[vaults[at].name@] == vaults[at]@,
{
    let names = vault_names(vaults);
    assert(names[at] == vaults[at].name@);
    assert(names.contains(names[at]));
    let found = names.index_of(names[at]);
    assert(names[found] == names[at]);
}

proof fn lemma_push(vaults: Seq<VaultConfig>, vault: VaultConfig)
    requires
        vault_names(vaults).no_duplicates(),
        !vault_names(vaults).contains(vault.name@),
    ensures
        vault_names(vaults.push(vault)).no_duplicates(),
        by_name(vaults.push(vault)) == by_name(vaults).insert(vault.name@, vault@),
{
    let after = vaults.push(vault);
    let names = vault_names(vaults);
    assert(vault_names(after) =~= names.push(vault.name@));
    assert(vault_names(after).no_duplicates()) by {
        assert forall|i: int, j: int|
            0 <= i < after.len() && 0 <= j < after.len() && i != j implies vault_names(after)[i]
            != vault_names(after)[j] by {
            if i < vaults.len() && j < vaults.len() {
                assert(names[i] != names[j]);
            } else if i < vaults.len() {
                assert(names.contains(names[i]));
            } else {
                assert(names.contains(names[j]));
            }
        }
    }
    assert forall|name: Seq<char>|
        by_name(after).contains_key(name) == by_name(vaults).insert(
            vault.name@,
            vault@,
        ).contains_key(name) by {
        if names.contains(name) {
            let i = names.index_of(name);
            assert(vault_names(after)[i] == name);
        }
        if name == vault.name@ {
            assert(vault_names(after)[vaults.len() as int] == name);
        }
        if vault_names(after).contains(name) {
            let i = vault_names(after).index_of(name);
            if i < vaults.len() {
                assert(names[i] == name);
            }
        }
    }
    assert forall|name: Seq<char>| by_name(after).contains_key(name) implies by_name(
        after,
    )[name] == by_name(vaults).insert(vault.name@, vault@)[name] by {
        let i = vault_names(after).index_of(name);
        assert(vault_names(after)[i] == name);
        lemma_lookup(after, i);
        if i < vaults.len() {
            assert(names[i] == name);
            assert(names.contains(name));
            lemma_lookup(vaults, i);
        }
    }
    assert(by_name(after) =~= by_name(vaults).insert(vault.name@, vault@));
}

proof fn lemma_remove(vaults: Seq<VaultConfig>, at: int)
    requires
        0 <= at < vaults.len(),
        vault_names(vaults).no_duplicates(),
    ensures
        vault_names(vaults.remove(at)).no_duplicates(),
        by_name(vaults.remove(at)) == by_name(vaults).remove(vaults[at].name@),
{
    let after = vaults.remove(at);
    let names = vault_names(vaults);
    let gone = vaults[at].name@;
    assert forall|i: int| 0 <= i < after.len() implies #[trigger] vault_names(after)[i] == names[if i
        < at {
        i
    } else {
        i + 1
    }] by {}
    assert forall|i: int, j: int| 0 <= i < after.len() && 0 <= j < after.len() && i != j implies
        vault_names(after)[i] != vault_names(after)[j] by {
        assert(vault_names(after)[i] == names[if i < at { i } else { i + 1 }]);
        assert(vault_names(after)[j] == names[if j < at { j } else { j + 1 }]);
    }
    assert forall|name: Seq<char>|
        by_name(after).contains_key(name) == by_name(vaults).remove(gone).contains_key(name) by {
        if vault_names(after).contains(name) {
            let i = vault_names(after).index_of(name);
            let k = if i < at {
                i
            } else {
                i + 1
            };
            assert(vault_names(after)[i] == names[k]);
            assert(names[k] != names[at]);
            assert(names.contains(name));
        }
        if names.contains(name) && name != gone {
            let i = names.index_of(name);
            let k = if i < at {
                i
            } else {
                i - 1
            };
            assert(vault_names(after)[k] == name);
        }
    }
    assert forall|name: Seq<char>| by_name(after).contains_key(name) implies by_name(
        after,
    )[name] == by_name(vaults).remove(gone)[name] by {
        let i = vault_names(after).index_of(name);
        assert(vault_names(after)[i] == name);
        let k = if i < at {
            i
        } else {
            i + 1
        };
        assert(names[k] == name);
        lemma_lookup(after, i);
        lemma_lookup(vaults, k);
        assert(names[k] != names[at]);
    }
    assert(by_name(after) =~= by_name(vaults).remove(gone));
}

/// What a vault sets itself, or else what the server sets.
pub open spec fn or_inherited<T>(own: Option<T>, server: T) -> Option<T> {
    match own {
        Some(value) => Some(value),
        None => Some(server),
    }
}

/// The settings in effect for a vault: its own, and those of the server where it has none.
/// The operations that are allowed are no setting of the server.
pub open spec fn effective(vault: Vault, server: ServerConfig) -> Vault {
    Vault {
        reconcile_external_changes: or_inherited(
            vault.reconcile_external_changes,
            server.reconcile_external_changes,
        ),
        max_file_size: or_inherited(vault.max_file_size, server.max_file_size),
        allowed_extensions: or_inherited(
            vault.allowed_extensions,
            texts(server.allowed_extensions@),
        ),
        excluded_paths: or_inherited(vault.excluded_paths, texts(server.excluded_paths@)),
        excluded_subtrees: or_inherited(vault.excluded_subtrees, texts(server.excluded_subtrees@)),
        enable_caching: or_inherited(vault.enable_caching, server.enable_caching),
        cache_ttl: or_inherited(vault.cache_ttl, server.cache_ttl),
        template_dirs: or_inherited(vault.template_dirs, texts(server.template_dirs@)),
        ..vault
    }
}

/// The texts that a vault sets itself, or else those that the server sets.
fn own_or(own: Option<Vec<String>>, server: &Vec<String>) -> (r: Option<Vec<String>>)
    ensures
        opt_texts(r) == or_inherited(opt_texts(own), texts(server@)),
{
    match own {
        Some(held) => Some(held),
        None => Some(copy_texts(server)),
    }
}

impl MultiVaultManager {
    /// The settings of the server.
    pub closed spec fn server(&self) -> ServerConfig {
        self.config
    }

    /// What always holds of a manager.
    pub closed spec fn wf(&self) -> bool {
        &&& vault_names(self.vaults@).no_duplicates()
        &&& registry_ok(self@)
    }

    /// The position of a vault.
    fn position(&self, name: &str) -> (r: Option<usize>)
        requires
            self.wf(),
        ensures
            match r {
                Some(at) => at < self.vaults.len() && self.vaults@[at as int].name@ == name@
                    && self@.vaults.contains_key(name@) && self@.vaults[name@]
                    == self.vaults@[at as int]@,
                None => !self@.vaults.contains_key(name@),
            },
    {
        position_of(&self.vaults, name)
    }

    /// The manager of the vaults that a server is configured with. Where a name
    /// occurs twice, the later vault counts. The active vault is the default one.
    pub fn new(config: ServerConfig) -> (r: Result<MultiVaultManager, Error>)
        ensures
            r matches Ok(manager) && manager.wf() && manager@.vaults == latest_by_name(
                config.vaults@,
            ) && manager@.active == match default_position(config.vaults@) {
                Some(at) => config.vaults@[at].name@,
                None => Seq::empty(),
            } && manager.server() == config,
    {
        let mut vaults: Vec<VaultConfig> = Vec::new();
        let mut i: usize = 0;
        let ghost all = config.vaults@;
        assert(by_name(vaults@) =~= latest_by_name(all.take(0)));
        while i < config.vaults.len()
            invariant
                i <= config.vaults.len(),
                all == config.vaults@,
                vault_names(vaults@).no_duplicates(),
                by_name(vaults@) == latest_by_name(all.take(i as int)),
            decreases config.vaults.len() - i,
        {
            assert(all.take(i + 1).drop_last() =~= all.take(i as int));
            let vault = config.vaults[i].clone();
            let ghost before = by_name(vaults@);
            let ghost name = vault.name@;
            match position_of(&vaults, vault.name.as_str()) {
                Some(at) => {
                    proof {
                        lemma_remove(vaults@, at as int);
                    }
                    vaults.remove(at);
                },
                None => {
                    assert(before.remove(name) =~= before);
                },
            }
            proof {
                assert(by_name(vaults@) == before.remove(name));
                assert(!vault_names(vaults@).contains(name)) by {
                    assert(!by_name(vaults@).contains_key(name));
                }
                lemma_push(vaults@, vault);
                assert(before.remove(name).insert(name, vault@) =~= before.insert(name, vault@));
            }
            vaults.push(vault);
            i = i + 1;
        }
        assert(all.take(i as int) =~= all);
        let active: String = match config.default_vault() {
            Ok(vault) => vault.name.clone(),
            Err(_) => String::new(),
        };
        proof {
            lemma_latest_keys(all);
            match default_position(all) {
                Some(at) => {
                    lemma_default_in_range(all);
                    assert(latest_by_name(all).contains_key(all[at].name@));
                },
                None => {
                    assert(all.len() == 0);
                    assert(latest_by_name(all).dom() =~= Set::<Seq<char>>::empty());
                },
            }
        }
        Ok(MultiVaultManager { vaults, default_vault: active, config })
    }

    /// A manager without vaults.
    pub fn empty(config: ServerConfig) -> (r: Result<MultiVaultManager, Error>)
        ensures
            r matches Ok(manager) && manager.wf() && manager@.vaults == Map::<
                Seq<char>,
                Vault,
            >::empty() && manager@.active == Seq::<char>::empty() && manager.server() == config,
    {
        let manager = MultiVaultManager {
            vaults: Vec::new(),
            default_vault: String::new(),
            config,
        };
        assert(manager@.vaults =~= Map::<Seq<char>, Vault>::empty());
        assert(manager@.vaults.dom() =~= Set::<Seq<char>>::empty());
        Ok(manager)
    }

    /// Registers a vault; the first one becomes active. Refused where as many vaults
    /// as can be are registered, or where the name is taken.
    pub fn add_vault(&mut self, vault_config: VaultConfig) -> (r: Result<(), Error>)
        requires
            old(self).wf(),
        ensures
            final(self).wf(),
            final(self).server() == old(self).server(),
            match r {
                Ok(_) => {
                    &&& old(self)@.vaults.dom().len() < MAX_VAULTS
                    &&& !old(self)@.vaults.contains_key(vault_config.name@)
                    &&& final(self)@.vaults == old(self)@.vaults.insert(
                        vault_config.name@,
                        vault_config@,
                    )
                    &&& final(self)@.active == if old(self)@.vaults.dom().len() == 0 {
                        vault_config.name@
                    } else {
                        old(self)@.active
                    }
                },
                Err(error) => {
                    &&& final(self)@ == old(self)@
                    &&& error@ == if old(self)@.vaults.dom().len() >= MAX_VAULTS {
                        Fault::Config(
                            "Maximum vault limit (50) reached. Remove a vault before adding a new one."@,
                        )
                    } else {
                        Fault::InvalidPath(
                            around("Vault '"@, vault_config.name@, "' already exists"@),
                        )
                    }
                    &&& old(self)@.vaults.dom().len() >= MAX_VAULTS
                        || old(self)@.vaults.contains_key(vault_config.name@)
                },
            },
    {
        proof {
            lemma_count(self.vaults@);
        }
        if self.vaults.len() >= MAX_VAULTS {
            return Err(
                Error::Config(
                    copy(
                        "Maximum vault limit (50) reached. Remove a vault before adding a new one.",
                    ),
                ),
            );
        }
        if self.position(vault_config.name.as_str()).is_some() {
            return Err(
                Error::InvalidPath(
                    wrap("Vault '", vault_config.name.as_str(), "' already exists"),
                ),
            );
        }
        let first: bool = self.vaults.len() == 0;
        proof {
            assert(!vault_names(self.vaults@).contains(vault_config.name@)) by {
                assert(!by_name(self.vaults@).contains_key(vault_config.name@));
            }
            lemma_push(self.vaults@, vault_config);
            if !first {
                lemma_lookup(self.vaults@, 0);
            }
            assert(old(self)@.vaults.insert(vault_config.name@, vault_config@).contains_key(
                vault_config.name@,
            ));
        }
        if first {
            self.default_vault = vault_config.name.clone();
        }
        self.vaults.push(vault_config);
        Ok(())
    }

    /// Removes a vault. Where it was the active one, the first of the others in the
    /// order of their names becomes active.
    pub fn remove_vault(&mut self, name: &str) -> (r: Result<(), Error>)
        requires
            old(self).wf(),
        ensures
            final(self).wf(),
            final(self).server() == old(self).server(),
            match r {
                Ok(_) => {
                    &&& old(self)@.vaults.contains_key(name@)
                    &&& final(self)@.vaults == old(self)@.vaults.remove(name@)
                    &&& old(self)@.active != name@ ==> final(self)@.active == old(self)@.active
                    &&& old(self)@.active == name@ ==> if final(self)@.vaults.dom()
                        == Set::<Seq<char>>::empty() {
                        final(self)@.active == Seq::<char>::empty()
                    } else {
                        is_first_name(final(self)@.vaults, final(self)@.active)
                    }
                },
                Err(error) => {
                    &&& final(self)@ == old(self)@
                    &&& !old(self)@.vaults.contains_key(name@)
                    &&& error@ == vault_not_found(name@)
                },
            },
    {
        let at: usize = match self.position(name) {
            Some(at) => at,
            None => {
                return Err(Error::NotFound(wrap("Vault '", name, "' not found")));
            },
        };
        proof {
            lemma_remove(self.vaults@, at as int);
        }
        let was_active: bool = same(self.default_vault.as_str(), name);
        self.vaults.remove(at);
        if was_active {
            self.default_vault = first_name(&self.vaults);
        } else {
            assert(self@.vaults.contains_key(self.default_vault@));
        }
        Ok(())
    }

    /// The settings of a vault.
    pub fn get_vault_config(&self, name: &str) -> (r: Result<VaultConfig, Error>)
        requires
            self.wf(),
        ensures
            match r {
                Ok(config) => self@.vaults.contains_key(name@) && config@ == self@.vaults[name@],
                Err(error) => !self@.vaults.contains_key(name@) && error@ == vault_not_found(
                    name@,
                ),
            },
    {
        match self.position(name) {
            Some(at) => Ok(self.vaults[at].clone()),
            None => Err(Error::NotFound(wrap("Vault '", name, "' not found"))),
        }
    }

    /// The name of the active vault, empty where there is none.
    pub fn get_active_vault(&self) -> (r: String)
        ensures
            r@ == self@.active,
    {
        self.default_vault.clone()
    }

    /// Makes a vault the active one.
    pub fn set_active_vault(&mut self, name: &str) -> (r: Result<(), Error>)
        requires
            old(self).wf(),
        ensures
            final(self).wf(),
            final(self).server() == old(self).server(),
            final(self)@.vaults == old(self)@.vaults,
            match r {
                Ok(_) => old(self)@.vaults.contains_key(name@) && final(self)@.active == name@,
                Err(error) => {
                    &&& final(self)@ == old(self)@
                    &&& !old(self)@.vaults.contains_key(name@)
                    &&& error@ == vault_not_found(name@)
                },
            },
    {
        if self.position(name).is_none() {
            return Err(Error::NotFound(wrap("Vault '", name, "' not found")));
        }
        self.default_vault = copy(name);
        Ok(())
    }

    /// What is told of each registered vault.
    pub fn list_vaults(&self) -> (r: Vec<VaultInfo>)
        requires
            self.wf(),
        ensures
            r.len() == self@.vaults.dom().len(),
            forall|i: int|
                0 <= i < r.len() ==> self@.vaults.contains_key((#[trigger] r@[i]).name@)
                    && r@[i]@ == info_of(self@.vaults[r@[i].name@], self@.active),
            forall|i: int, j: int|
                0 <= i < j < r.len() ==> (#[trigger] r@[i]).name@ != (#[trigger] r@[j]).name@,
    {
        let mut out: Vec<VaultInfo> = Vec::new();
        let mut i: usize = 0;
        while i < self.vaults.len()
            invariant
                i <= self.vaults.len(),
                out.len() == i,
                self.wf(),
                forall|k: int|
                    0 <= k < i ==> (#[trigger] out@[k]).name@ == self.vaults@[k].name@ && out@[k]@
                        == info_of(self.vaults@[k]@, self@.active),
            decreases self.vaults.len() - i,
        {
            let vault = &self.vaults[i];
            let needs: bool = match vault.write_backend {
                WriteBackend::Direct => false,
                WriteBackend::Git => match &vault.git {
                    Some(git) => git.require_commit_message,
                    None => false,
                },
            };
            out.push(
                VaultInfo {
                    name: vault.name.clone(),
                    path: vault.path.clone(),
                    is_default: same(vault.name.as_str(), self.default_vault.as_str()),
                    write_backend: copy(vault.write_backend.name()),
                    require_commit_message: needs,
                    config: vault.clone(),
                },
            );
            i = i + 1;
        }
        proof {
            lemma_count(self.vaults@);
            assert forall|k: int| 0 <= k < out.len() implies self@.vaults.contains_key(
                (#[trigger] out@[k]).name@,
            ) && out@[k]@ == info_of(self@.vaults[out@[k].name@], self@.active) by {
                lemma_lookup(self.vaults@, k);
            }
            assert forall|a: int, b: int| 0 <= a < b < out.len() implies (#[trigger] out@[a]).name@
                != (#[trigger] out@[b]).name@ by {
                assert(vault_names(self.vaults@)[a] != vault_names(self.vaults@)[b]);
            }
        }
        out
    }

    /// The settings in effect for a vault, its own and those it inherits from the server.
    pub fn get_effective_vault_settings(&self, vault_name: &str) -> (r: Result<VaultConfig, Error>)
        requires
            self.wf(),
        ensures
            match r {
                Ok(config) => self@.vaults.contains_key(vault_name@) && config@ == effective(
                    self@.vaults[vault_name@],
                    self.server(),
                ),
                Err(error) => !self@.vaults.contains_key(vault_name@) && error@
                    == vault_not_found(vault_name@),
            },
    {
        let own = match self.get_vault_config(vault_name) {
            Ok(own) => own,
            Err(error) => {
                return Err(error);
            },
        };
        let server = &self.config;
        Ok(
            VaultConfig {
                name: own.name,
                path: own.path,
                is_default: own.is_default,
                reconcile_external_changes: match own.reconcile_external_changes {
                    Some(value) => Some(value),
                    None => Some(server.reconcile_external_changes),
                },
                max_file_size: match own.max_file_size {
                    Some(value) => Some(value),
                    None => Some(server.max_file_size),
                },
                allowed_extensions: own_or(own.allowed_extensions, &server.allowed_extensions),
                excluded_paths: own_or(own.excluded_paths, &server.excluded_paths),
                excluded_subtrees: own_or(own.excluded_subtrees, &server.excluded_subtrees),
                enable_caching: match own.enable_caching {
                    Some(value) => Some(value),
                    None => Some(server.enable_caching),
                },
                cache_ttl: match own.cache_ttl {
                    Some(value) => Some(value),
                    None => Some(server.cache_ttl),
                },
                template_dirs: own_or(own.template_dirs, &server.template_dirs),
                allowed_operations: own.allowed_operations,
                write_backend: own.write_backend,
                git: own.git,
            },
        )
    }

    /// How many vaults are registered.
    pub fn vault_count(&self) -> (n: usize)
        requires
            self.wf(),
        ensures
            n == self@.vaults.dom().len(),
    {
        proof {
            lemma_count(self.vaults@);
        }
        self.vaults.len()
    }

    /// Whether a vault is registered.
    pub fn vault_exists(&self, name: &str) -> (r: bool)
        requires
            self.wf(),
        ensures
            r == self@.vaults.contains_key(name@),
    {
        self.position(name).is_some()
    }

    /// The settings of the active vault. A vault with an empty name is not one that
    /// can be active.
    pub fn get_active_vault_config(&self) -> (r: Result<VaultConfig, Error>)
        requires
            self.wf(),
        ensures
            match r {
                Ok(config) => self@.active.len() > 0 && self@.vaults.contains_key(self@.active)
                    && config@ == self@.vaults[self@.active],
                Err(error) => self@.active.len() == 0 && error@ == Fault::NotFound(
                    "No vault is currently active. Please add a vault using add_vault tool."@,
                ),
            },
    {
        if self.default_vault.as_str().is_empty() {
            return Err(
                Error::NotFound(
                    copy("No vault is currently active. Please add a vault using add_vault tool."),
                ),
            );
        }
        self.get_vault_config(self.default_vault.as_str())
    }
}

/// The vaults by name, where a later one replaces an earlier one of the same name.
pub open spec fn latest_by_name(vaults: Seq<VaultConfig>) -> Map<Seq<char>, Vault>
    decreases vaults.len(),
{
    if vaults.len() == 0 {
        Map::empty()
    } else {
        latest_by_name(vaults.drop_last()).insert(vaults.last().name@, vaults.last()@)
    }
}

proof fn lemma_latest_keys(vaults: Seq<VaultConfig>)
    ensures
        forall|i: int|
            0 <= i < vaults.len() ==> latest_by_name(vaults).contains_key(
                (#[trigger] vaults[i]).name@,
            ),
    decreases vaults.len(),
{
    if vaults.len() > 0 {
        lemma_latest_keys(vaults.drop_last());
        assert forall|i: int| 0 <= i < vaults.len() implies latest_by_name(vaults).contains_key(
            (#[trigger] vaults[i]).name@,
        ) by {
            if i < vaults.len() - 1 {
                assert(vaults.drop_last()[i] == vaults[i]);
            }
        }
    }
}

proof fn lemma_default_in_range(vaults: Seq<VaultConfig>)
    requires
        default_position(vaults) is Some,
    ensures
        0 <= default_position(vaults)->0 < vaults.len(),
{
    if exists|i: int| 0 <= i < vaults.len() && (#[trigger] vaults[i]).is_default {
        let i = choose|i: int| 0 <= i < vaults.len() && (#[trigger] vaults[i]).is_default;
        lemma_first_default_bound(vaults, 0, i);
    }
}

proof fn lemma_first_default_bound(vaults: Seq<VaultConfig>, from: int, at: int)
    requires
        0 <= from <= at < vaults.len(),
        vaults[at].is_default,
    ensures
        from <= crate::config::first_default(vaults, from) <= at,
    decreases at - from,
{
    if from < at && !vaults[from].is_default {
        lemma_first_default_bound(vaults, from + 1, at);
    }
}

proof fn lemma_count(vaults: Seq<VaultConfig>)
    requires
        vault_names(vaults).no_duplicates(),
    ensures
        by_name(vaults).dom().len() == vaults.len(),
        by_name(vaults).dom().finite(),
{
    let names = vault_names(vaults);
    names.unique_seq_to_set();
    assert(by_name(vaults).dom() =~= names.to_set());
}

/// The position of a vault.
fn position_of(vaults: &Vec<VaultConfig>, name: &str) -> (r: Option<usize>)
    requires
        vault_names(vaults@).no_duplicates(),
    ensures
        match r {
            Some(at) => at < vaults.len() && vaults@[at as int].name@ == name@ && by_name(
                vaults@,
            ).contains_key(name@) && by_name(vaults@)[name@] == vaults@[at as int]@,
            None => !by_name(vaults@).contains_key(name@),
        },
{
    let ghost names = vault_names(vaults@);
    let mut i: usize = 0;
    while i < vaults.len()
        invariant
            i <= vaults.len(),
            names == vault_names(vaults@),
            names.no_duplicates(),
            forall|k: int| 0 <= k < i ==> #[trigger] names[k] != name@,
        decreases vaults.len() - i,
    {
        if same(vaults[i].name.as_str(), name) {
            proof {
                lemma_lookup(vaults@, i as int);
            }
            return Some(i);
        }
        assert(names[i as int] != name@);
        i = i + 1;
    }
    None
}

/// The first name in the order of texts, empty where there is none.
fn first_name(vaults: &Vec<VaultConfig>) -> (r: String)
    requires
        vault_names(vaults@).no_duplicates(),
    ensures
        if by_name(vaults@).dom() == Set::<Seq<char>>::empty() {
            r@ == Seq::<char>::empty()
        } else {
            is_first_name(by_name(vaults@), r@)
        },
{
    let ghost names = vault_names(vaults@);
    if vaults.len() == 0 {
        assert(by_name(vaults@).dom() =~= Set::<Seq<char>>::empty());
        return String::new();
    }
    let mut best: usize = 0;
    let mut i: usize = 1;
    proof {
        if text_before(names[0], names[0]) {
            lemma_text_order_asymmetric(names[0], names[0]);
        }
    }
    while i < vaults.len()
        invariant
            best < i <= vaults.len(),
            names == vault_names(vaults@),
            forall|k: int| 0 <= k < i ==> !text_before(#[trigger] names[k], names[best as int]),
        decreases vaults.len() - i,
    {
        assert(names[i as int] == vaults@[i as int].name@);
        assert(names[best as int] == vaults@[best as int].name@);
        if comes_before(vaults[i].name.as_str(), vaults[best].name.as_str()) {
            proof {
                assert forall|k: int| 0 <= k < i + 1 implies !text_before(
                    #[trigger] names[k],
                    names[i as int],
                ) by {
                    lemma_text_order_asymmetric(names[i as int], names[best as int]);
                    if k == i {
                        if text_before(names[k], names[k]) {
                            lemma_text_order_asymmetric(names[k], names[k]);
                        }
                    } else {
                        lemma_text_order_transitive(names[i as int], names[best as int], names[k]);
                    }
                }
            }
            best = i;
        }
        i = i + 1;
    }
    proof {
        lemma_lookup(vaults@, best as int);
        assert forall|other: Seq<char>| #[trigger] by_name(vaults@).contains_key(
            other,
        ) implies !text_before(other, names[best as int]) by {
            let k = names.index_of(other);
            assert(names[k] == other);
        }
    }
    vaults[best].name.clone()
}

// ---------------------------------------------------------------------------
// Laws
// ---------------------------------------------------------------------------

/// The vault that becomes active when the active one is removed is determined by
/// the names alone.
pub proof fn lemma_first_name_unique(
    vaults: Map<Seq<char>, Vault>,
    a: Seq<char>,
    b: Seq<char>,
)
    requires
        is_first_name(vaults, a),
        is_first_name(vaults, b),
    ensures
        a == b,
{
    lemma_text_order_total(a, b);
}

/// The direct backend never asks for a commit message.
pub proof fn lemma_direct_needs_no_message(vault: Vault, active: Seq<char>)
    requires
        vault.write_backend == WriteBackend::Direct,
    ensures
        !info_of(vault, active).require_commit_message,
        info_of(vault, active).write_backend == "direct"@,
{
}

/// A vault's own settings stand. What it leaves open is inherited, so that everything the
/// server can say is settled, and inheriting twice changes nothing.
pub proof fn lemma_own_settings_stand(vault: Vault, server: ServerConfig)
    ensures
        vault.reconcile_external_changes is Some ==> effective(vault, server).reconcile_external_changes
            == vault.reconcile_external_changes,
        vault.max_file_size is Some ==> effective(vault, server).max_file_size
            == vault.max_file_size,
        vault.allowed_extensions is Some ==> effective(vault, server).allowed_extensions
            == vault.allowed_extensions,
        vault.excluded_paths is Some ==> effective(vault, server).excluded_paths
            == vault.excluded_paths,
        vault.excluded_subtrees is Some ==> effective(vault, server).excluded_subtrees
            == vault.excluded_subtrees,
        vault.enable_caching is Some ==> effective(vault, server).enable_caching
            == vault.enable_caching,
        vault.cache_ttl is Some ==> effective(vault, server).cache_ttl
            == vault.cache_ttl,
        vault.template_dirs is Some ==> effective(vault, server).template_dirs
            == vault.template_dirs,
        effective(vault, server).reconcile_external_changes is Some,
        effective(vault, server).max_file_size is Some,
        effective(vault, server).allowed_extensions is Some,
        effective(vault, server).excluded_paths is Some,
        effective(vault, server).excluded_subtrees is Some,
        effective(vault, server).enable_caching is Some,
        effective(vault, server).cache_ttl is Some,
        effective(vault, server).template_dirs is Some,
        effective(vault, server).name == vault.name,
        effective(vault, server).path == vault.path,
        effective(effective(vault, server), server) == effective(vault, server),
{
}

/// Registering a vault and removing it again leaves the vaults as they were.
pub proof fn lemma_remove_undoes_add(vaults: Map<Seq<char>, Vault>, name: Seq<char>, vault: Vault)
    requires
        !vaults.contains_key(name),
    ensures
        vaults.insert(name, vault).remove(name) == vaults,
{
    assert(vaults.insert(name, vault).remove(name) =~= vaults);
}

/// Where nothing occurs twice in the lists of a vault and of the server, nothing does in the
/// lists in effect.
pub proof fn lemma_effective_lists_are_sets(vault: Vault, server: ServerConfig)
    requires
        vault.holds_sets(),
        server.holds_sets(),
    ensures
        effective(vault, server).holds_sets(),
{
}

} // verus!
