//! What settings say, and what is wrong with them.
use crate::config::{
    backend_of, default_position, directory_fault, first_bad, first_default, first_fault,
    is_default_config, is_subtree, one_default, subtrees_fault, vault_names, vaults_fault,
    DirectoryState, ServerConfig, Vault, VaultConfig, WriteBackend,
};
use crate::embedding_config::{
    bool_setting, index_place, reranker_on, settings_of, truth_of, Values,
};
use crate::error::Fault;
use crate::hashing::slug;
use crate::lines::{join, trim};
use crate::multi_vault::{effective, info_of, latest_by_name, vault_not_found};
use crate::numbers::{decimal, digits_value, lemma_number_of_decimal, number_of};
use crate::pathing::{is_name, lemma_names_between_slashes_are_parts};
use crate::paths::{joined_path, parts, Part};
use crate::text::{ascii_lowered, quoted, texts};
use vstd::prelude::*;

verus! {

// ---------------------------------------------------------------------------
// Backends and subtrees
// ---------------------------------------------------------------------------

/// Settings name two backends, one of them in two ways.
pub proof fn lemma_backends_have_names(value: Seq<char>)
    ensures
        backend_of(value) == Some(WriteBackend::Direct) <==> value == "direct"@ || value
            == "legacy"@,
        backend_of(value) == Some(WriteBackend::Git) <==> value == "git"@,
{
    reveal_strlit("direct");
    reveal_strlit("legacy");
    reveal_strlit("git");
    assert("direct"@.len() == 6 && "legacy"@.len() == 6 && "git"@.len() == 3);
}

/// Names with slashes between them are a subtree; an empty path, one from the root, and one
/// that runs through `.` or `..` are none.
pub proof fn lemma_subtrees_run_through_names(names: Seq<Seq<char>>, path: Seq<char>)
    ensures
        names.len() > 0 && (forall|k: int| 0 <= k < names.len() ==> is_name(#[trigger] names[k]))
            ==> is_subtree(join(names, seq!['/'])),
        is_subtree(path) ==> path.len() > 0 && path[0] != '/' && !parts(path).contains(Part::Cur)
            && !parts(path).contains(Part::Parent) && !parts(path).contains(Part::Root),
{
    if names.len() > 0 && (forall|k: int|
        0 <= k < names.len() ==> is_name(#[trigger] names[k])) {
        let whole = join(names, seq!['/']);
        lemma_names_between_slashes_are_parts(names);
        assert(is_name(names[0]));
        if whole.len() == 0 {
            assert(crate::lines::split(whole, '/') =~= crate::lines::split(Seq::empty(), '/'));
            assert(parts(whole).len() == names.len());
            lemma_no_parts(whole);
        }
        if whole.len() > 0 && whole[0] == '/' {
            assert(parts(whole)[0] == Part::Root);
            assert(parts(whole)[0] == Part::Normal(names[0]));
        }
    }
    if is_subtree(path) {
        assert forall|part: Part| part !is Normal implies !parts(path).contains(part) by {}
    }
}

proof fn lemma_no_parts(path: Seq<char>)
    requires
        path.len() == 0,
    ensures
        parts(path).len() == 0,
{
    let pieces = crate::lines::split(path, '/');
    assert(path =~= Seq::<char>::empty());
    assert(pieces.len() == 1 && pieces[0].len() == 0);
    assert(pieces.drop_last().len() == 0);
    assert(crate::paths::piece_parts(pieces.drop_last()).len() == 0);
}

proof fn lemma_first_bad(paths: Seq<Seq<char>>)
    ensures
        match first_bad(paths) {
            Some(bad) => exists|i: int|
                0 <= i < paths.len() && #[trigger] paths[i] == bad && !is_subtree(bad) && forall|
                    k: int,
                | 0 <= k < i ==> is_subtree(#[trigger] paths[k]),
            None => forall|k: int| 0 <= k < paths.len() ==> is_subtree(#[trigger] paths[k]),
        },
    decreases paths.len(),
{
    if paths.len() > 0 {
        let front = paths.drop_last();
        lemma_first_bad(front);
        match first_bad(front) {
            Some(bad) => {
                let i = choose|i: int|
                    0 <= i < front.len() && #[trigger] front[i] == bad && !is_subtree(bad)
                        && forall|k: int| 0 <= k < i ==> is_subtree(#[trigger] front[k]);
                assert(paths[i] == bad);
                assert forall|k: int| 0 <= k < i implies is_subtree(#[trigger] paths[k]) by {
                    assert(front[k] == paths[k]);
                }
            },
            None => {
                assert forall|k: int| 0 <= k < front.len() implies is_subtree(
                    #[trigger] paths[k],
                ) by {
                    assert(front[k] == paths[k]);
                }
                if !is_subtree(paths.last()) {
                    assert(paths[paths.len() - 1] == paths.last());
                }
            },
        }
    }
}

/// A list of subtrees is refused for the first that is none, which the fault names.
pub proof fn lemma_the_first_bad_subtree_is_told(paths: Seq<Seq<char>>, i: int)
    ensures
        0 <= i < paths.len() && !is_subtree(paths[i]) && (forall|k: int|
            0 <= k < i ==> is_subtree(#[trigger] paths[k])) ==> subtrees_fault(paths) == Some(
            Fault::Config(
                "Excluded subtree must be a non-empty vault-relative path without '.' or '..': "@
                    + paths[i],
            ),
        ),
        subtrees_fault(paths) is None <==> forall|k: int|
            0 <= k < paths.len() ==> is_subtree(#[trigger] paths[k]),
{
    lemma_first_bad(paths);
    if 0 <= i < paths.len() && !is_subtree(paths[i]) && (forall|k: int|
        0 <= k < i ==> is_subtree(#[trigger] paths[k])) {
        let j = choose|j: int|
            0 <= j < paths.len() && #[trigger] paths[j] == first_bad(paths)->0 && !is_subtree(
                first_bad(paths)->0,
            ) && forall|k: int| 0 <= k < j ==> is_subtree(#[trigger] paths[k]);
        assert(i == j);
        let words =
            "Excluded subtree must be a non-empty vault-relative path without '.' or '..': "@;
        assert(words + paths[i] + Seq::<char>::empty() =~= words + paths[i]);
    }
}

// ---------------------------------------------------------------------------
// Vaults and servers
// ---------------------------------------------------------------------------

/// The directory of a vault must be one; where it is not, the fault names its path, and the
/// reason where it could not be made.
pub proof fn lemma_vaults_need_a_directory(path: Seq<char>, state: DirectoryState)
    ensures
        directory_fault(path, state) is None <==> state is Directory,
        state is NotDirectory ==> directory_fault(path, state) == Some(
            Fault::Config("Vault path is not a directory: "@ + path),
        ),
        state matches DirectoryState::CreateFailed(reason) ==> directory_fault(path, state) == Some(
            Fault::Config(
                "Vault path does not exist and could not be created: "@ + path + (" ("@ + reason@
                    + ")"@),
            ),
        ),
{
    assert("Vault path is not a directory: "@ + path + Seq::<char>::empty()
        =~= "Vault path is not a directory: "@ + path);
}

/// A vault needs a name, and subtrees where it leaves any out.
pub proof fn lemma_vaults_need_a_name(config: VaultConfig)
    ensures
        config.name@.len() == 0 ==> config.settings_fault() == Some(
            Fault::Config("Vault name cannot be empty"@),
        ),
        config.name@.len() > 0 ==> config.settings_fault() == match config.excluded_subtrees {
            Some(paths) => subtrees_fault(texts(paths@)),
            None => None,
        },
{
}

proof fn lemma_first_default(vaults: Seq<VaultConfig>, from: int, i: int)
    requires
        0 <= from <= i < vaults.len(),
        vaults[i].is_default,
        forall|k: int| from <= k < i ==> !(#[trigger] vaults[k]).is_default,
    ensures
        first_default(vaults, from) == i,
    decreases i - from,
{
    if from < i {
        lemma_first_default(vaults, from + 1, i);
    }
}

/// The default vault is the first that says so, and the first of all where none does.
pub proof fn lemma_the_default_vault_comes_first(vaults: Seq<VaultConfig>, i: int)
    ensures
        0 <= i < vaults.len() && vaults[i].is_default && (forall|k: int|
            0 <= k < i ==> !(#[trigger] vaults[k]).is_default) ==> default_position(vaults) == Some(
            i,
        ),
        vaults.len() > 0 && (forall|k: int|
            0 <= k < vaults.len() ==> !(#[trigger] vaults[k]).is_default) ==> default_position(
            vaults,
        ) == Some(0int),
        vaults.len() == 0 ==> default_position(vaults) is None,
{
    if 0 <= i < vaults.len() && vaults[i].is_default && (forall|k: int|
        0 <= k < i ==> !(#[trigger] vaults[k]).is_default) {
        lemma_first_default(vaults, 0, i);
    }
}

proof fn lemma_first_fault(
    vaults: Seq<VaultConfig>,
    directories: Seq<DirectoryState>,
    i: int,
)
    requires
        0 <= i < vaults.len(),
        forall|k: int|
            0 <= k < i ==> (#[trigger] vaults[k]).settings_fault() is None && directory_fault(
                vaults[k].path@,
                directories[k],
            ) is None,
    ensures
        vaults[i].settings_fault() is Some ==> first_fault(vaults, directories)
            == vaults[i].settings_fault(),
        vaults[i].settings_fault() is None && directory_fault(vaults[i].path@, directories[i])
            is Some ==> first_fault(vaults, directories) == directory_fault(
            vaults[i].path@,
            directories[i],
        ),
        i == vaults.len() - 1 && vaults[i].settings_fault() is None && directory_fault(
            vaults[i].path@,
            directories[i],
        ) is None ==> first_fault(vaults, directories) is None,
    decreases vaults.len(),
{
    let front = vaults.drop_last();
    if i < vaults.len() - 1 {
        assert forall|k: int| 0 <= k < i implies (#[trigger] front[k]).settings_fault() is None
            && directory_fault(front[k].path@, directories[k]) is None by {
            assert(front[k] == vaults[k]);
        }
        lemma_first_fault(front, directories, i);
        assert(front[i] == vaults[i]);
    } else if front.len() > 0 {
        assert forall|k: int| 0 <= k < front.len() - 1 implies (
        #[trigger] front[k]).settings_fault() is None && directory_fault(
            front[k].path@,
            directories[k],
        ) is None by {
            assert(front[k] == vaults[k]);
        }
        assert(front[front.len() - 1] == vaults[front.len() - 1]);
        lemma_first_fault(front, directories, front.len() - 1);
    }
}

/// A server is refused for its own settings before those of its vaults, for an earlier vault
/// before a later one, and for what a vault says before its directory.
pub proof fn lemma_faults_have_an_order(
    config: ServerConfig,
    directories: Seq<DirectoryState>,
    i: int,
)
    ensures
        config.general_fault() is Some ==> config.fault_with(directories) == config.general_fault()
            && config.settings_fault() == config.general_fault(),
        config.general_fault() is None && 0 <= i < config.vaults@.len() && (forall|k: int|
            0 <= k < i ==> (#[trigger] config.vaults@[k]).settings_fault() is None
                && directory_fault(config.vaults@[k].path@, directories[k]) is None) ==> {
            let vault = config.vaults@[i];
            let wrong = directory_fault(vault.path@, directories[i]);
            &&& vault.settings_fault() is Some ==> config.fault_with(directories)
                == vault.settings_fault()
            &&& vault.settings_fault() is None && wrong is Some ==> config.fault_with(directories)
                == wrong
            &&& vault.settings_fault() is None && wrong is None && i == config.vaults@.len() - 1
                ==> config.fault_with(directories) is None
        },
{
    if config.general_fault() is None && 0 <= i < config.vaults@.len() && (forall|k: int|
        0 <= k < i ==> (#[trigger] config.vaults@[k]).settings_fault() is None && directory_fault(
            config.vaults@[k].path@,
            directories[k],
        ) is None) {
        lemma_first_fault(config.vaults@, directories, i);
    }
}

proof fn lemma_vaults_fault(vaults: Seq<VaultConfig>, i: int)
    requires
        0 <= i < vaults.len(),
        forall|k: int| 0 <= k < i ==> (#[trigger] vaults[k]).settings_fault() is None,
    ensures
        vaults[i].settings_fault() is Some ==> vaults_fault(vaults) == vaults[i].settings_fault(),
        i == vaults.len() - 1 && vaults[i].settings_fault() is None ==> vaults_fault(vaults)
            is None,
    decreases vaults.len(),
{
    let front = vaults.drop_last();
    if i < vaults.len() - 1 {
        assert forall|k: int| 0 <= k < i implies (#[trigger] front[k]).settings_fault() is None by {
            assert(front[k] == vaults[k]);
        }
        lemma_vaults_fault(front, i);
        assert(front[i] == vaults[i]);
    } else if front.len() > 0 {
        assert forall|k: int| 0 <= k < front.len() - 1 implies (
        #[trigger] front[k]).settings_fault() is None by {
            assert(front[k] == vaults[k]);
        }
        assert(front[front.len() - 1] == vaults[front.len() - 1]);
        lemma_vaults_fault(front, front.len() - 1);
    }
}

/// The settings of a server are in order where its own are, and those of every vault; else
/// they are refused for the first vault whose settings are not.
pub proof fn lemma_settings_are_in_order_together(config: ServerConfig, i: int)
    ensures
        config.general_fault() is None && 0 <= i < config.vaults@.len() && (forall|k: int|
            0 <= k < i ==> (#[trigger] config.vaults@[k]).settings_fault() is None) ==> {
            let vault = config.vaults@[i];
            &&& vault.settings_fault() is Some ==> config.settings_fault() == vault.settings_fault()
            &&& vault.settings_fault() is None && i == config.vaults@.len() - 1
                ==> config.settings_fault() is None
        },
{
    if config.general_fault() is None && 0 <= i < config.vaults@.len() && (forall|k: int|
        0 <= k < i ==> (#[trigger] config.vaults@[k]).settings_fault() is None) {
        lemma_vaults_fault(config.vaults@, i);
    }
}

/// A server needs subtrees where it leaves any out, a vault, different names for its vaults,
/// and at most one default among them.
pub proof fn lemma_servers_need_vaults(config: ServerConfig, i: int, j: int)
    ensures
        ({
            let vaults = config.vaults@;
            let trees = subtrees_fault(texts(config.excluded_subtrees@));
            &&& trees is Some ==> config.general_fault() == trees
            &&& trees is None && vaults.len() == 0 ==> config.general_fault() == Some(
                Fault::Config("At least one vault must be configured"@),
            )
            &&& trees is None && 0 <= i < j < vaults.len() && vaults[i].name@ == vaults[j].name@
                ==> config.general_fault() == Some(Fault::Config("Vault names must be unique"@))
            &&& trees is None && 0 <= i < j < vaults.len() && vaults[i].is_default
                && vaults[j].is_default && (forall|a: int, b: int|
                0 <= a < b < vaults.len() ==> (#[trigger] vaults[a]).name@ != (
                #[trigger] vaults[b]).name@) ==> config.general_fault() == Some(
                Fault::Config("Only one vault can be default"@),
            )
            &&& config.general_fault() is None ==> trees is None && vaults.len() > 0 && (0 <= i < j
                < vaults.len() ==> vaults[i].name@ != vaults[j].name@ && !(vaults[i].is_default
                && vaults[j].is_default))
            &&& trees is None && vaults.len() == 1 ==> config.general_fault() is None
        }),
{
    let vaults = config.vaults@;
    let names = vault_names(vaults);
    if 0 <= i < j < vaults.len() {
        assert(names[i] == vaults[i].name@ && names[j] == vaults[j].name@);
    }
    if forall|a: int, b: int|
        0 <= a < b < vaults.len() ==> (#[trigger] vaults[a]).name@ != (#[trigger] vaults[b]).name@ {
        assert forall|a: int, b: int| 0 <= a < names.len() && 0 <= b < names.len() && a
            != b implies names[a] != names[b] by {
            assert(names[a] == vaults[a].name@ && names[b] == vaults[b].name@);
        }
        assert(names.no_duplicates());
    }
    if vaults.len() == 1 {
        assert(names.no_duplicates());
        assert(one_default(vaults));
    }
}

/// What a server does unless told otherwise.
pub proof fn lemma_servers_begin_with_these_settings(config: ServerConfig)
    requires
        is_default_config(config),
    ensures
        config.vaults@.len() == 0,
        config.profile@ == "default"@,
        config.log_level@ == "INFO"@,
        config.max_file_size == 10_485_760,
        config.cache_ttl == 3600 && config.index_rebuild_interval == 3600,
        config.max_backup_files == 100 && config.max_edit_history == 100,
        config.backup_retention_days == 7 && config.max_link_suggestions == 10,
        texts(config.allowed_extensions@) == seq![".md"@, ".txt"@, ".canvas"@],
        texts(config.excluded_paths@) == seq![
            ".obsidian"@,
            ".git"@,
            ".DS_Store"@,
            "node_modules"@,
        ],
        config.excluded_subtrees@.len() == 0 && config.template_dirs@.len() == 0,
        config.reconcile_external_changes && config.enable_caching,
        config.editor_backup_enabled && config.editor_atomic_writes,
        config.link_graph_enabled && config.link_suggestions_enabled,
        config.full_text_search_enabled,
        !config.multi_vault_enabled && !config.metrics_enabled && !config.debug_mode,
{
}

/// Where a vault sets nothing, the server's settings are in effect; what only a vault can
/// set stays as it is.
pub proof fn lemma_open_settings_are_the_servers(vault: Vault, server: ServerConfig)
    ensures
        ({
            let found = effective(vault, server);
            &&& vault.reconcile_external_changes is None ==> found.reconcile_external_changes
                == Some(server.reconcile_external_changes)
            &&& vault.max_file_size is None ==> found.max_file_size == Some(server.max_file_size)
            &&& vault.allowed_extensions is None ==> found.allowed_extensions == Some(
                texts(server.allowed_extensions@),
            )
            &&& vault.excluded_paths is None ==> found.excluded_paths == Some(
                texts(server.excluded_paths@),
            )
            &&& vault.excluded_subtrees is None ==> found.excluded_subtrees == Some(
                texts(server.excluded_subtrees@),
            )
            &&& vault.enable_caching is None ==> found.enable_caching == Some(server.enable_caching)
            &&& vault.cache_ttl is None ==> found.cache_ttl == Some(server.cache_ttl)
            &&& vault.template_dirs is None ==> found.template_dirs == Some(
                texts(server.template_dirs@),
            )
            &&& found.is_default == vault.is_default
            &&& found.allowed_operations == vault.allowed_operations
            &&& found.write_backend == vault.write_backend
            &&& found.git == vault.git
        }),
{
}

/// Of vaults with one name the last one stays.
pub proof fn lemma_the_last_vault_of_a_name_stays(
    vaults: Seq<VaultConfig>,
    name: Seq<char>,
    i: int,
)
    ensures
        0 <= i < vaults.len() && vaults[i].name@ == name && (forall|k: int|
            i < k < vaults.len() ==> (#[trigger] vaults[k]).name@ != name) ==> latest_by_name(
            vaults,
        ).contains_key(name) && latest_by_name(vaults)[name] == vaults[i]@,
        (forall|k: int| 0 <= k < vaults.len() ==> (#[trigger] vaults[k]).name@ != name)
            ==> !latest_by_name(vaults).contains_key(name),
    decreases vaults.len(),
{
    if vaults.len() > 0 {
        let front = vaults.drop_last();
        lemma_the_last_vault_of_a_name_stays(front, name, i);
        assert(vaults[vaults.len() - 1] == vaults.last());
        if 0 <= i < front.len() {
            assert(front[i] == vaults[i]);
        }
        if 0 <= i && forall|k: int| i < k < vaults.len() ==> (#[trigger] vaults[k]).name@ != name {
            assert forall|k: int| i < k < front.len() implies (#[trigger] front[k]).name@
                != name by {
                assert(front[k] == vaults[k]);
            }
        }
        if forall|k: int| 0 <= k < vaults.len() ==> (#[trigger] vaults[k]).name@ != name {
            assert forall|k: int| 0 <= k < front.len() implies (#[trigger] front[k]).name@
                != name by {
                assert(front[k] == vaults[k]);
            }
        }
    }
}

/// What is told of a vault is what it is: the active one is the default, and messages are
/// asked for where commits are made and settings ask for them.
pub proof fn lemma_vaults_are_told_as_they_are(vault: Vault, active: Seq<char>)
    ensures
        ({
            let told = info_of(vault, active);
            &&& told.name == vault.name && told.path == vault.path && told.config == vault
            &&& told.is_default <==> vault.name == active
            &&& vault.write_backend == WriteBackend::Git ==> told.write_backend == "git"@
            &&& vault.write_backend == WriteBackend::Direct ==> told.write_backend == "direct"@
            &&& told.require_commit_message <==> vault.write_backend == WriteBackend::Git
                && vault.git is Some && vault.git->0.require_commit_message
        }),
        vault_not_found(active) == Fault::NotFound("Vault '"@ + active + "' not found"@),
{
}

// ---------------------------------------------------------------------------
// Settings of the environment
// ---------------------------------------------------------------------------

proof fn lemma_value_grows(s: Seq<char>, c: char)
    ensures
        digits_value(s.push(c)) == digits_value(s) * 10 + (c as nat - 48) as nat,
{
    assert(s.push(c).drop_last() =~= s);
}

/// A number is read where it was written in decimal, with or without a plus sign; a number
/// beyond the limit is not, nor is a text with any other character, nor an empty one.
pub proof fn lemma_numbers_are_read_in_decimal(n: nat, limit: nat, text: Seq<char>, c: char)
    ensures
        n <= limit ==> number_of(decimal(n), limit) == Some(n),
        number_of(text, limit) is Some ==> text.len() > 0 && number_of(text, limit)->0 <= limit
            && forall|i: int|
            0 <= i < text.len() ==> '0' <= #[trigger] text[i] <= '9' || (i == 0 && text[0] == '+'),
        text.len() > 0 && text[0] != '+' ==> number_of(seq!['+'] + text, limit) == number_of(
            text,
            limit,
        ),
        '0' <= c <= '9' && number_of(text, limit) is Some && number_of(text, limit)->0 * 10 + (
        c as nat - '0' as nat) <= limit ==> number_of(text.push(c), limit) == Some(
            (number_of(text, limit)->0 * 10 + (c as nat - '0' as nat)) as nat,
        ),
{
    if n <= limit {
        lemma_number_of_decimal(n, limit);
    }
    let plain = if text.len() > 0 && text[0] == '+' {
        text.skip(1)
    } else {
        text
    };
    if number_of(text, limit) is Some {
        assert forall|i: int| 0 <= i < text.len() implies '0' <= #[trigger] text[i] <= '9' || (i
            == 0 && text[0] == '+') by {
            if plain == text {
                assert(crate::numbers::is_digit(plain[i]));
            } else if i > 0 {
                assert(text[i] == plain[i - 1]);
                assert(crate::numbers::is_digit(plain[i - 1]));
            }
        }
        let longer = text.push(c);
        let wanted = plain.push(c);
        if text[0] == '+' {
            assert(longer.skip(1) =~= wanted);
        }
        lemma_value_grows(plain, c);
        if '0' <= c <= '9' {
            assert(crate::numbers::all_digits(wanted)) by {
                assert forall|i: int| 0 <= i < wanted.len() implies crate::numbers::is_digit(
                    #[trigger] wanted[i],
                ) by {
                    if i < plain.len() {
                        assert(wanted[i] == plain[i]);
                    }
                }
            }
        }
    }
    assert((seq!['+'] + text).skip(1) =~= text);
}

/// Truths are said by four words each, in any case and with white space around them.
pub proof fn lemma_truths_are_said_by_words(text: Seq<char>)
    ensures
        ({
            let word = ascii_lowered(trim(text));
            &&& truth_of(text) == Some(true) <==> word == "1"@ || word == "true"@ || word == "yes"@
                || word == "on"@
            &&& truth_of(text) == Some(false) <==> word == "0"@ || word == "false"@ || word == "no"@
                || word == "off"@
        }),
{
    reveal_strlit("1");
    reveal_strlit("true");
    reveal_strlit("yes");
    reveal_strlit("on");
    reveal_strlit("0");
    reveal_strlit("false");
    reveal_strlit("no");
    reveal_strlit("off");
    assert("1"@[0] == '1' && "0"@[0] == '0' && "on"@[0] == 'o' && "no"@[0] == 'n');
    assert("on"@.len() == 2 && "no"@.len() == 2 && "off"@.len() == 3 && "yes"@.len() == 3);
    assert("true"@.len() == 4 && "false"@.len() == 5 && "off"@[0] == 'o' && "yes"@[0] == 'y');
}

/// Whether a setting has the number that its variable says, or this one where it is not set.
pub open spec fn says_number(value: Option<Seq<char>>, n: nat, otherwise: nat) -> bool {
    match value {
        Some(text) => number_of(text, usize::MAX as nat) == Some(n),
        None => n == otherwise,
    }
}

/// Whether a setting has the text of its variable, or this one where it is not set.
pub open spec fn says_text(value: Option<Seq<char>>, text: Seq<char>, otherwise: Seq<char>) -> bool {
    match value {
        Some(said) => text == said,
        None => text == otherwise,
    }
}

/// Whether a key is the one of its variable, which does not count where it is blank.
pub open spec fn says_key(value: Option<Seq<char>>, key: Option<Seq<char>>) -> bool {
    match value {
        Some(said) => if trim(said).len() > 0 {
            key == Some(said)
        } else {
            key is None
        },
        None => key is None,
    }
}

/// Settings are those that the variables say. A variable that is not set says its default.
pub proof fn lemma_settings_are_those_of_the_variables(v: Values, vault_path: Seq<char>)
    requires
        settings_of(v, vault_path) is Ok,
    ensures
        ({
            let s = settings_of(v, vault_path)->Ok_0;
            &&& says_text(v.endpoint, s.endpoint, "http://127.0.0.1:8082/v1/embeddings"@)
            &&& says_text(v.model, s.model, "Qwen/Qwen3-Embedding-8B-GGUF"@)
            &&& says_text(
                v.reranker_endpoint,
                s.reranker_endpoint,
                "http://127.0.0.1:8083/v1/rerank"@,
            )
            &&& says_text(v.reranker_model, s.reranker_model, "BAAI/bge-reranker-v2-m3"@)
            &&& says_number(v.chunk_chars, s.chunk_chars as nat, 2400)
            &&& says_number(v.chunk_overlap, s.chunk_overlap as nat, 200)
            &&& says_number(v.batch_size, s.batch_size as nat, 16)
            &&& says_number(v.document_max_bytes, s.document_max_bytes as nat, 52_428_800)
            &&& says_number(v.reranker_batch_size, s.reranker_batch_size as nat, 12)
            &&& says_number(v.refresh_after_secs, s.refresh_after_secs as nat, 21_600)
            &&& says_key(v.api_key, s.api_key)
            &&& v.document_indexing_enabled is None ==> !s.document_indexing_enabled
            &&& v.document_indexing_enabled is Some ==> truth_of(v.document_indexing_enabled->0)
                == Some(s.document_indexing_enabled)
            &&& s.chunk_overlap < s.chunk_chars
            &&& s.batch_size > 0
            &&& s.document_max_bytes > 0
        }),
{
}

/// Whether a variable says a number, or nothing.
pub open spec fn can_be_read(value: Option<Seq<char>>) -> bool {
    value matches Some(text) ==> number_of(text, usize::MAX as nat) is Some
}

/// Settings are refused only where a number cannot be read, a truth cannot, the overlap is
/// not smaller than a chunk, or a size is zero.
pub proof fn lemma_settings_are_refused_for_a_reason(v: Values, vault_path: Seq<char>)
    ensures
        settings_of(v, vault_path) is Ok <==> {
            &&& can_be_read(v.chunk_chars) && can_be_read(v.chunk_overlap) && can_be_read(
                v.batch_size,
            )
            &&& can_be_read(v.document_max_bytes) && can_be_read(v.reranker_batch_size)
                && can_be_read(v.refresh_after_secs)
            &&& v.document_indexing_enabled matches Some(text) ==> truth_of(text) is Some
            &&& forall|chars: nat, overlap: nat|
                #[trigger] says_number(v.chunk_chars, chars, 2400) && #[trigger] says_number(
                    v.chunk_overlap,
                    overlap,
                    200,
                ) ==> overlap < chars
            &&& !says_number(v.batch_size, 0, 16)
            &&& !says_number(v.document_max_bytes, 0, 52_428_800)
        },
{
    let max = usize::MAX as nat;
    if can_be_read(v.chunk_chars) && can_be_read(v.chunk_overlap) {
        let chars = match v.chunk_chars {
            Some(text) => number_of(text, max)->0,
            None => 2400,
        };
        let overlap = match v.chunk_overlap {
            Some(text) => number_of(text, max)->0,
            None => 200,
        };
        assert(says_number(v.chunk_chars, chars, 2400));
        assert(says_number(v.chunk_overlap, overlap, 200));
    }
}

/// A value that cannot be read is refused by the name of its variable and with the value.
pub proof fn lemma_values_are_refused_by_name(v: Values, vault_path: Seq<char>)
    ensures
        v.chunk_chars matches Some(text) ==> (number_of(text, usize::MAX as nat) is None
            ==> settings_of(v, vault_path) == Err::<crate::embedding_config::Settings, Fault>(
            Fault::Config(
                "TURBOVAULT_EMBEDDING_CHUNK_CHARS"@ + " must be a positive integer, got "@ + quoted(
                    text,
                ),
            ),
        )),
        can_be_read(v.chunk_chars) ==> (v.chunk_overlap matches Some(text) ==> (number_of(
            text,
            usize::MAX as nat,
        ) is None ==> settings_of(v, vault_path) == Err::<crate::embedding_config::Settings, Fault>(
            Fault::Config(
                "TURBOVAULT_EMBEDDING_CHUNK_OVERLAP"@ + " must be a positive integer, got "@
                    + quoted(text),
            ),
        ))),
        forall|name: Seq<char>, text: Seq<char>, otherwise: bool| #[trigger]
            bool_setting(name, Some(text), otherwise) is Err <==> truth_of(text) is None,
        forall|name: Seq<char>, text: Seq<char>, otherwise: bool|
            truth_of(text) is None ==> #[trigger] bool_setting(name, Some(text), otherwise) == Err::<
                bool,
                Fault,
            >(Fault::Config(name + " must be true or false, got "@ + quoted(text))),
{
}

/// Reranking is switched on by an endpoint unless a value says otherwise: a blank one, `0`
/// and `false` switch it off, anything else on.
pub proof fn lemma_reranking_is_switched_by_its_value(text: Seq<char>, endpoint: Seq<char>)
    ensures
        reranker_on(None, endpoint) <==> trim(endpoint).len() > 0,
        reranker_on(Some("0"@), endpoint) == false,
        ascii_lowered(text) == "false"@ ==> !reranker_on(Some(text), endpoint),
        trim(text).len() == 0 ==> !reranker_on(Some(text), endpoint),
        trim(text).len() > 0 && text != "0"@ && ascii_lowered(text) != "false"@ ==> reranker_on(
            Some(text),
            endpoint,
        ),
{
}

/// The index of a vault lies in the directory that is set for indexes, or in that of the
/// caches, under the digests of the vault's path and of the model.
pub proof fn lemma_indexes_have_a_place(v: Values, vault_path: Seq<char>)
    ensures
        ({
            let model = match v.model {
                Some(model) => model,
                None => "Qwen/Qwen3-Embedding-8B-GGUF"@,
            };
            let name = slug(vault_path) + "-"@ + slug(model);
            &&& v.index_dir matches Some(dir) ==> index_place(v, vault_path) == joined_path(
                dir,
                name,
            )
            &&& v.index_dir is None ==> (v.cache_home matches Some(base) ==> index_place(
                v,
                vault_path,
            ) == joined_path(joined_path(base, "turbovault/embeddings"@), name))
            &&& v.index_dir is None && v.cache_home is None && !v.on_windows ==> (v.home
                matches Some(base) ==> index_place(v, vault_path) == joined_path(
                joined_path(base, ".cache/turbovault/embeddings"@),
                name,
            ))
            &&& v.index_dir is None && v.cache_home is None && v.on_windows ==> (v.local_app_data
                matches Some(base) ==> index_place(v, vault_path) == joined_path(
                joined_path(base, "turbovault/embeddings"@),
                name,
            ))
            &&& v.index_dir is None && v.cache_home is None && v.home is None && (!v.on_windows
                || v.local_app_data is None) ==> index_place(v, vault_path) == joined_path(
                ".turbovault/embeddings"@,
                name,
            )
        }),
{
}

} // verus!
