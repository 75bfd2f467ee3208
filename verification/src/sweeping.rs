//! What is found on disk, what is reported of it, and which paths may be touched.
use crate::config::{default_position, ServerConfig, VaultConfig};
use crate::error::Fault;
use crate::index::in_subtree;
use crate::lines::join;
use crate::manager::{
    barrier, forward_slashes, managed, normalized, note_resolution, policy_fault, protected_in,
    resolution, subtree_of, Managed, Places,
};
use crate::paths::{joined_path, lies_under, parts, Part};
use crate::reconcile::{
    cached_changes, changes, collapsed, due, on_disk, published, tagged, vault_key, CacheRecord,
    DrainedCommit, ReconcileState,
};
use crate::scan::{
    admits, descended, excluded_names, excluded_trees, listed, millis_of, plain_extensions,
    visit_of, without_dots, DirEntry, EntryKind, ScanRules, ScannedNote, Visit,
};
use crate::search_index::{built, doc_of, is_indexed, shown_title, Change, Source};
use crate::text::{lemma_distinct, lower_of_text, opt_texts, texts};
use vstd::multiset::Multiset;
use vstd::prelude::*;

verus! {

// ---------------------------------------------------------------------------
// Walking a vault
// ---------------------------------------------------------------------------

proof fn lemma_protected_name()
    ensures
        crate::scan::PROTECTED_COMPONENTS@[0]@ == ".turbovault"@,
{
}

/// Whether an entry is left out: it has no name that can be read, has one that is left out,
/// or lies in a subtree that is.
pub open spec fn is_left_out(rules: ScanRules, entry: DirEntry) -> bool {
    ||| entry.name is None
    ||| entry.name->0@ == ".turbovault"@
    ||| rules.excluded.contains(entry.name->0@)
    ||| in_subtree(crate::paths::relative_to(entry.path@, rules.root), rules.excluded_subtrees)
}

/// A scan enters every directory and lists every file with a listed extension that is not
/// too large, except what is left out.
pub proof fn lemma_entries_are_visited_by_the_rules(rules: ScanRules, entry: DirEntry)
    ensures
        visit_of(rules, entry) == Visit::Descend <==> !is_left_out(rules, entry) && entry.kind
            == EntryKind::Directory,
        visit_of(rules, entry) == Visit::List <==> {
            &&& !is_left_out(rules, entry)
            &&& entry.kind == EntryKind::File
            &&& crate::paths::extension(entry.path@) matches Some(ext) && admits(
                rules.allowed_extensions,
                ext,
            )
            &&& entry.metadata matches Some((size, _)) && size <= rules.max_file_size
        },
{
    lemma_protected_name();
}

/// A path lies in a subtree where it begins with the parts of one.
pub proof fn lemma_subtrees_hold_what_begins_with_them(path: Seq<char>, trees: Seq<Seq<char>>)
    ensures
        in_subtree(path, trees) <==> exists|tree: Seq<char>| #[trigger]
            trees.contains(tree) && parts(tree).len() <= parts(path).len() && parts(path).take(
                parts(tree).len() as int,
            ) == parts(tree),
{
    if in_subtree(path, trees) {
        let i = choose|i: int|
            0 <= i < trees.len() && lies_under(parts(path), parts(#[trigger] trees[i]));
        assert(trees.contains(trees[i]));
    }
    if exists|tree: Seq<char>| #[trigger]
        trees.contains(tree) && parts(tree).len() <= parts(path).len() && parts(path).take(
            parts(tree).len() as int,
        ) == parts(tree) {
        let tree = choose|tree: Seq<char>| #[trigger]
            trees.contains(tree) && parts(tree).len() <= parts(path).len() && parts(path).take(
                parts(tree).len() as int,
            ) == parts(tree);
        let i = choose|i: int| 0 <= i < trees.len() && trees[i] == tree;
        assert(lies_under(parts(path), parts(trees[i])));
    }
}

/// An extension is listed as it is written, and also in lower case where it has a capital
/// letter; one without capitals is listed only as it is.
pub proof fn lemma_extensions_are_listed_in_any_case(allowed: Seq<Seq<char>>, ext: Seq<char>)
    ensures
        allowed.contains(ext) ==> admits(allowed, ext),
        (exists|i: int| 0 <= i < ext.len() && 'A' <= #[trigger] ext[i] <= 'Z') && allowed.contains(
            lower_of_text(ext),
        ) ==> admits(allowed, ext),
        !allowed.contains(ext) && (forall|i: int|
            0 <= i < ext.len() ==> !('A' <= #[trigger] ext[i] <= 'Z')) ==> !admits(allowed, ext),
        !allowed.contains(ext) && !allowed.contains(lower_of_text(ext)) ==> !admits(allowed, ext),
{
}

/// Dots before an extension do not count, nor does its case; each extension is listed.
pub proof fn lemma_dots_before_extensions_do_not_count(all: Seq<Seq<char>>, ext: Seq<char>)
    ensures
        without_dots(seq!['.'] + ext) == without_dots(ext),
        ext.len() == 0 || ext[0] != '.' ==> without_dots(ext) == ext,
        all.contains(ext) ==> plain_extensions(all).contains(lower_of_text(without_dots(ext))),
        plain_extensions(all).contains(ext) ==> exists|i: int|
            0 <= i < all.len() && lower_of_text(without_dots(#[trigger] all[i])) == ext,
        plain_extensions(all).no_duplicates(),
{
    assert((seq!['.'] + ext).drop_first() =~= ext);
    let plain = all.map_values(|e: Seq<char>| lower_of_text(without_dots(e)));
    lemma_distinct(plain);
    if all.contains(ext) {
        let i = choose|i: int| 0 <= i < all.len() && all[i] == ext;
        assert(plain[i] == lower_of_text(without_dots(ext)));
        assert(plain.contains(plain[i]));
    }
    if plain_extensions(all).contains(ext) {
        assert(plain.contains(ext));
        let i = choose|i: int| 0 <= i < plain.len() && plain[i] == ext;
        assert(lower_of_text(without_dots(all[i])) == ext);
    }
}

/// What the server leaves out and what its default vault leaves out are left out, and
/// nothing else is; each name is listed once.
pub proof fn lemma_servers_and_vaults_leave_out_together(config: ServerConfig, name: Seq<char>)
    ensures
        ({
            let at = default_position(config.vaults@);
            let vault = config.vaults@[at->0];
            &&& excluded_names(config).contains(name) <==> texts(config.excluded_paths@).contains(
                name,
            ) || (at is Some && opt_texts(vault.excluded_paths) is Some && opt_texts(
                vault.excluded_paths,
            )->0.contains(name))
            &&& excluded_trees(config).contains(name) <==> texts(
                config.excluded_subtrees@,
            ).contains(name) || (at is Some && opt_texts(vault.excluded_subtrees) is Some
                && opt_texts(vault.excluded_subtrees)->0.contains(name))
            &&& excluded_names(config).no_duplicates()
        }),
{
    let at = default_position(config.vaults@);
    let vault = config.vaults@[at->0];
    let names = texts(config.excluded_paths@);
    let trees = texts(config.excluded_subtrees@);
    match at {
        Some(_) => {
            match opt_texts(vault.excluded_paths) {
                Some(more) => {
                    lemma_in_both(names, more, name);
                    lemma_distinct(names + more);
                },
                None => {
                    assert(names + Seq::empty() =~= names);
                    lemma_distinct(names);
                },
            }
            match opt_texts(vault.excluded_subtrees) {
                Some(more) => {
                    lemma_in_both(trees, more, name);
                },
                None => {
                    assert(trees + Seq::empty() =~= trees);
                },
            }
        },
        None => {
            lemma_distinct(names);
        },
    }
}

proof fn lemma_in_both(a: Seq<Seq<char>>, b: Seq<Seq<char>>, name: Seq<char>)
    ensures
        (a + b).contains(name) <==> a.contains(name) || b.contains(name),
{
    if a.contains(name) {
        let i = choose|i: int| 0 <= i < a.len() && a[i] == name;
        assert((a + b)[i] == name);
    }
    if b.contains(name) {
        let i = choose|i: int| 0 <= i < b.len() && b[i] == name;
        assert((a + b)[a.len() + i] == name);
    }
}

/// The files and directories of some entries are those of the first ones and then those of
/// the rest, each with the path, the size and the time that its entry has.
pub proof fn lemma_entries_one_by_one(
    rules: ScanRules,
    a: Seq<DirEntry>,
    b: Seq<DirEntry>,
    entry: DirEntry,
)
    ensures
        listed(rules, a + b) == listed(rules, a) + listed(rules, b),
        descended(rules, a + b) == descended(rules, a) + descended(rules, b),
        visit_of(rules, entry) == Visit::List ==> listed(rules, seq![entry]).len() == 1 && listed(
            rules,
            seq![entry],
        )[0].path == entry.path@ && (entry.metadata matches Some((size, modified)) && listed(
            rules,
            seq![entry],
        )[0].size_bytes == size && listed(rules, seq![entry])[0].modified == modified),
        visit_of(rules, entry) != Visit::List ==> listed(rules, seq![entry]).len() == 0,
        visit_of(rules, entry) == Visit::Descend ==> descended(rules, seq![entry]) == seq![
            entry.path@,
        ],
        visit_of(rules, entry) != Visit::Descend ==> descended(rules, seq![entry]).len() == 0,
    decreases b.len(),
{
    assert(seq![entry].drop_last() =~= Seq::<DirEntry>::empty());
    assert(listed(rules, Seq::empty()) =~= Seq::empty());
    assert(descended(rules, Seq::empty()) =~= Seq::empty());
    if visit_of(rules, entry) == Visit::Descend {
        assert(descended(rules, seq![entry]) =~= seq![entry.path@]);
    }
    if b.len() == 0 {
        assert(a + b =~= a);
        assert(listed(rules, a + b) =~= listed(rules, a) + listed(rules, b));
        assert(descended(rules, a + b) =~= descended(rules, a) + descended(rules, b));
    } else {
        lemma_entries_one_by_one(rules, a, b.drop_last(), entry);
        assert((a + b).drop_last() =~= a + b.drop_last());
        assert(listed(rules, a + b) =~= listed(rules, a) + listed(rules, b));
        assert(descended(rules, a + b) =~= descended(rules, a) + descended(rules, b));
    }
}

/// A time in milliseconds is the whole milliseconds of the time in nanoseconds.
pub proof fn lemma_milliseconds_are_whole(millis: u64, rest: int)
    requires
        0 <= rest < 1_000_000,
    ensures
        millis_of(millis * 1_000_000 + rest) == Some(millis),
        forall|nanos: int| nanos < 0 ==> #[trigger] millis_of(nanos) is None,
{
}

// ---------------------------------------------------------------------------
// Sweeps
// ---------------------------------------------------------------------------

/// After a sweep the next one waits twenty times what it took, but half a second at least
/// and half a minute at most; the first one does not wait.
pub proof fn lemma_sweeps_wait_for_their_cost(cost: u64, finished: u64, now: int)
    ensures
        ({
            let state = ReconcileState { last_finished: Some(finished), last_cost: cost };
            let passed = now - finished;
            &&& due(state, now) ==> passed >= 500_000_000
            &&& passed >= 30_000_000_000 ==> due(state, now)
            &&& 500_000_000 <= passed < 30_000_000_000 ==> (due(state, now) <==> passed >= cost
                * 20)
        }),
        due(ReconcileState { last_finished: None, last_cost: cost }, now),
{
}

/// A note that is known in its revision is not reported, one in another revision is
/// reported as there, and one that is gone as gone.
pub proof fn lemma_known_notes_are_reported_when_they_move(
    before: Seq<CacheRecord>,
    record: CacheRecord,
    notes: Seq<ScannedNote>,
)
    ensures
        ({
            let told = cached_changes(before, notes);
            let now = cached_changes(before.push(record), notes);
            match on_disk(notes, record.path@) {
                Some(print) => if record.observed == Some(print) {
                    now == told
                } else {
                    now == told.push((record.path@, true))
                },
                None => now == told.push((record.path@, false)),
            }
        }),
        cached_changes(Seq::empty(), notes).len() == 0,
{
    assert(before.push(record).drop_last() =~= before);
}

/// A note below a vault is called by the names that lead to it, with slashes between them;
/// one outside of the vault, and one that is reached through `..`, has no such name.
pub proof fn lemma_notes_are_called_by_the_names_that_lead_to_them(
    path: Seq<char>,
    vault_path: Seq<char>,
    names: Seq<Seq<char>>,
)
    ensures
        names.len() > 0 && parts(path) == parts(vault_path) + names.map_values(
            |name: Seq<char>| Part::Normal(name),
        ) ==> vault_key(path, vault_path) == Some(join(names, seq!['/'])),
        vault_key(path, vault_path) is Some ==> lies_under(parts(path), parts(vault_path))
            && parts(path).len() > parts(vault_path).len() && forall|i: int|
            parts(vault_path).len() <= i < parts(path).len() ==> (
            #[trigger] parts(path)[i]) is Normal,
{
    let base = parts(vault_path);
    let all = parts(path);
    let marked = names.map_values(|name: Seq<char>| Part::Normal(name));
    if names.len() > 0 && all == base + marked {
        assert(all.take(base.len() as int) =~= base);
        assert(all.skip(base.len() as int) =~= marked);
        assert(marked.map_values(|p: Part| crate::paths::part_text(p)) =~= names);
        assert forall|i: int| 0 <= i < marked.len() implies (#[trigger] marked[i]) is Normal by {}
    }
    if vault_key(path, vault_path) is Some {
        let rest = all.skip(base.len() as int);
        assert forall|i: int| base.len() <= i < all.len() implies (#[trigger] all[i]) is Normal by {
            assert(all[i] == rest[i - base.len()]);
        }
    }
}

/// Changes are published one by one under the name of the note, except those outside of the
/// vault and those that this process is writing.
pub proof fn lemma_changes_are_published_one_by_one(
    a: Seq<(Seq<char>, bool)>,
    b: Seq<(Seq<char>, bool)>,
    change: (Seq<char>, bool),
    vault_path: Seq<char>,
    claims: Multiset<Seq<char>>,
)
    ensures
        published(a + b, vault_path, claims) == published(a, vault_path, claims) + published(
            b,
            vault_path,
            claims,
        ),
        match vault_key(change.0, vault_path) {
            Some(key) => if claims.count(key) == 0 {
                published(seq![change], vault_path, claims) == seq![(key, change.1)]
            } else {
                published(seq![change], vault_path, claims).len() == 0
            },
            None => published(seq![change], vault_path, claims).len() == 0,
        },
    decreases b.len(),
{
    assert(seq![change].drop_last() =~= Seq::<(Seq<char>, bool)>::empty());
    assert(published(Seq::empty(), vault_path, claims) =~= Seq::empty());
    match vault_key(change.0, vault_path) {
        Some(key) => {
            if claims.count(key) == 0 {
                assert(published(seq![change], vault_path, claims) =~= seq![(key, change.1)]);
            }
        },
        None => {},
    }
    if b.len() == 0 {
        assert(a + b =~= a);
        assert(published(a + b, vault_path, claims) =~= published(a, vault_path, claims)
            + published(b, vault_path, claims));
    } else {
        lemma_changes_are_published_one_by_one(a, b.drop_last(), change, vault_path, claims);
        assert((a + b).drop_last() =~= a + b.drop_last());
        assert(published(a + b, vault_path, claims) =~= published(a, vault_path, claims)
            + published(b, vault_path, claims));
    }
}

/// The changes of commits are those of each of them, in the order in which the commits were
/// taken, each with the origin of its commit.
pub proof fn lemma_commits_are_taken_in_order(
    a: Seq<DrainedCommit>,
    b: Seq<DrainedCommit>,
    commit: DrainedCommit,
    k: int,
)
    ensures
        collapsed(a + b) == collapsed(a) + collapsed(b),
        collapsed(seq![commit]).len() == commit.changes@.len(),
        0 <= k < commit.changes@.len() ==> collapsed(seq![commit])[k] == (
            commit.changes@[k].path@,
            commit.changes@[k].present,
            commit.origin,
        ),
    decreases b.len(),
{
    assert(seq![commit].drop_last() =~= Seq::<DrainedCommit>::empty());
    assert(collapsed(Seq::empty()) =~= Seq::empty());
    assert(collapsed(seq![commit]) =~= tagged(changes(commit.changes@), commit.origin));
    if b.len() == 0 {
        assert(a + b =~= a);
        assert(collapsed(a + b) =~= collapsed(a) + collapsed(b));
    } else {
        lemma_commits_are_taken_in_order(a, b.drop_last(), commit, k);
        assert((a + b).drop_last() =~= a + b.drop_last());
        assert(collapsed(a + b) =~= collapsed(a) + collapsed(b));
    }
}

// ---------------------------------------------------------------------------
// Paths of requests
// ---------------------------------------------------------------------------

/// A single dot leads nowhere, two dots lead back, but not beyond the start, and a name
/// leads on.
pub proof fn lemma_dots_lead_back(all: Seq<Part>, name: Seq<char>)
    ensures
        normalized(all.push(Part::Cur)) == normalized(all),
        normalized(all.push(Part::Normal(name))) == normalized(all).push(Part::Normal(name)),
        normalized(all.push(Part::Normal(name)).push(Part::Parent)) == normalized(all),
        normalized(Seq::empty().push(Part::Parent)).len() == 0,
        (forall|i: int| 0 <= i < all.len() ==> (#[trigger] all[i]) is Normal || all[i] is Root)
            ==> normalized(all) == all,
    decreases all.len(),
{
    assert(all.push(Part::Cur).drop_last() =~= all);
    assert(all.push(Part::Normal(name)).drop_last() =~= all);
    let there = all.push(Part::Normal(name));
    assert(there.last() == Part::Normal(name));
    assert(normalized(there) == normalized(all).push(Part::Normal(name)));
    let back = there.push(Part::Parent);
    assert(back.drop_last() =~= there);
    assert(back.last() == Part::Parent);
    assert(normalized(back) == normalized(there).drop_last());
    assert(normalized(there).drop_last() =~= normalized(all));
    assert(Seq::<Part>::empty().push(Part::Parent).drop_last() =~= Seq::empty());
    assert(normalized(Seq::empty()) =~= Seq::empty());
    if all.len() > 0 && (forall|i: int|
        0 <= i < all.len() ==> (#[trigger] all[i]) is Normal || all[i] is Root) {
        let front = all.drop_last();
        assert forall|i: int| 0 <= i < front.len() implies (#[trigger] front[i]) is Normal
            || front[i] is Root by {
            assert(front[i] == all[i]);
        }
        lemma_dots_lead_back(front, name);
        assert(all[all.len() - 1] == all.last());
        assert(front.push(all.last()) =~= all);
    }
}

/// A path is refused where it is known to leave the vault, or does not lie under it; any
/// other leads where it says, below the vault.
pub proof fn lemma_requests_lead_below_the_vault(
    vault_path: Seq<char>,
    path: Seq<char>,
    leaves: Option<bool>,
    places: Option<Places>,
)
    ensures
        ({
            let found = resolution(vault_path, path, leaves, places);
            let full = joined_path(vault_path, path);
            let place = match places {
                Some(places) => parts(places.path),
                None => normalized(parts(full)),
            };
            let base = match places {
                Some(places) => parts(places.root),
                None => parts(vault_path),
            };
            let is_below = base.len() <= place.len() && place.take(base.len() as int) == base;
            &&& leaves == Some(true) || !is_below ==> found == Err::<Seq<char>, Fault>(
                Fault::PathTraversalAttempt { path: full },
            )
            &&& leaves != Some(true) && is_below ==> found == Ok::<Seq<char>, Fault>(full)
        }),
{
}

proof fn lemma_protected_in(rest: Seq<Part>, excluded: Seq<Seq<char>>)
    ensures
        match protected_in(rest, excluded) {
            Some(name) => (name == ".turbovault"@ || excluded.contains(name)) && rest.contains(
                Part::Normal(name),
            ),
            None => forall|i: int|
                0 <= i < rest.len() ==> ((#[trigger] rest[i]) matches Part::Normal(name) ==> name
                    != ".turbovault"@ && !excluded.contains(name)),
        },
    decreases rest.len(),
{
    lemma_protected_name();
    if rest.len() > 0 {
        let front = rest.drop_last();
        lemma_protected_in(front, excluded);
        assert(rest[rest.len() - 1] == rest.last());
        match protected_in(front, excluded) {
            Some(name) => {
                let i = choose|i: int| 0 <= i < front.len() && front[i] == Part::Normal(name);
                assert(rest[i] == Part::Normal(name));
            },
            None => {
                match protected_in(rest, excluded) {
                    Some(name) => {
                        assert(rest[rest.len() - 1] == Part::Normal(name));
                    },
                    None => {
                        assert forall|i: int| 0 <= i < rest.len() implies ((
                        #[trigger] rest[i]) matches Part::Normal(name) ==> name != ".turbovault"@
                            && !excluded.contains(name)) by {
                            if i < front.len() {
                                assert(front[i] == rest[i]);
                            }
                        }
                    },
                }
            },
        }
    }
}

proof fn lemma_subtree_of(rest: Seq<Part>, trees: Seq<Seq<char>>)
    ensures
        match subtree_of(rest, trees) {
            Some(tree) => trees.contains(tree) && lies_under(rest, parts(tree)),
            None => forall|tree: Seq<char>| #[trigger]
                trees.contains(tree) ==> !lies_under(rest, parts(tree)),
        },
    decreases trees.len(),
{
    if trees.len() > 0 {
        let front = trees.drop_last();
        lemma_subtree_of(rest, front);
        assert(trees[trees.len() - 1] == trees.last());
        match subtree_of(rest, front) {
            Some(tree) => {
                let i = choose|i: int| 0 <= i < front.len() && front[i] == tree;
                assert(trees[i] == tree);
            },
            None => {
                assert forall|tree: Seq<char>| #[trigger]
                    trees.contains(tree) && tree != trees.last() implies !lies_under(
                    rest,
                    parts(tree),
                ) by {
                    let i = choose|i: int| 0 <= i < trees.len() && trees[i] == tree;
                    assert(front[i] == tree);
                    assert(front.contains(tree));
                }
            },
        }
    }
}

/// Whether parts below a vault may not be touched: one of them is a name that is left out,
/// or they lie in a subtree that is.
pub open spec fn is_kept_away(
    rest: Seq<Part>,
    excluded: Seq<Seq<char>>,
    trees: Seq<Seq<char>>,
) -> bool {
    ||| rest.contains(Part::Normal(".turbovault"@))
    ||| exists|name: Seq<char>| #[trigger]
        excluded.contains(name) && rest.contains(Part::Normal(name))
    ||| exists|tree: Seq<char>| #[trigger] trees.contains(tree) && lies_under(rest, parts(tree))
}

proof fn lemma_barrier(rest: Seq<Part>, excluded: Seq<Seq<char>>, trees: Seq<Seq<char>>)
    ensures
        barrier(rest, excluded, trees) is Some <==> is_kept_away(rest, excluded, trees),
{
    lemma_protected_in(rest, excluded);
    lemma_subtree_of(rest, trees);
    match protected_in(rest, excluded) {
        Some(name) => {
            if name != ".turbovault"@ {
                assert(excluded.contains(name));
            }
        },
        None => {
            assert forall|name: Seq<char>| rest.contains(Part::Normal(name)) implies name
                != ".turbovault"@ && !excluded.contains(name) by {
                let i = choose|i: int| 0 <= i < rest.len() && rest[i] == Part::Normal(name);
                assert(rest[i] == Part::Normal(name));
            }
            match subtree_of(rest, trees) {
                Some(tree) => {
                    assert(trees.contains(tree));
                },
                None => {},
            }
        },
    }
}

/// A path is kept away from where it runs through what is left out below the vault, as it is
/// written or once its dots were followed, and from nothing else.
pub proof fn lemma_only_what_is_left_out_is_kept_away(vault: Managed, path: Seq<char>)
    ensures
        ({
            let base = parts(vault.vault_path);
            let written = parts(path);
            let normal = normalized(written);
            let n = base.len() as int;
            policy_fault(vault, path) is Some <==> {
                ||| lies_under(written, base) && is_kept_away(
                    written.skip(n),
                    vault.excluded,
                    vault.subtrees,
                )
                ||| lies_under(normal, base) && is_kept_away(
                    normal.skip(n),
                    vault.excluded,
                    vault.subtrees,
                )
            }
        }),
        policy_fault(vault, path) matches Some(fault) ==> (fault matches Fault::ProtectedPath {
            path: told,
            ..
        } && told == path),
{
    let base = parts(vault.vault_path);
    let written = parts(path);
    let normal = normalized(written);
    let n = base.len() as int;
    lemma_barrier(written.skip(n), vault.excluded, vault.subtrees);
    lemma_barrier(normal.skip(n), vault.excluded, vault.subtrees);
}

/// A note can be touched where its path leads below the vault and is not kept away; where it
/// leads elsewhere, that is what is told.
pub proof fn lemma_notes_are_touched_where_both_allow(
    vault: Managed,
    path: Seq<char>,
    leaves: Option<bool>,
    places: Option<Places>,
)
    ensures
        ({
            let full = joined_path(vault.vault_path, path);
            let found = note_resolution(vault, path, leaves, places);
            &&& resolution(vault.vault_path, path, leaves, places) is Err ==> found == resolution(
                vault.vault_path,
                path,
                leaves,
                places,
            )
            &&& resolution(vault.vault_path, path, leaves, places) is Ok && policy_fault(
                vault,
                full,
            ) is None ==> found == Ok::<Seq<char>, Fault>(full)
            &&& resolution(vault.vault_path, path, leaves, places) is Ok ==> (policy_fault(
                vault,
                full,
            ) matches Some(fault) ==> found == Err::<Seq<char>, Fault>(fault))
        }),
{
}

/// A manager keeps away from what its scans leave out, and works in the vault that they walk.
pub proof fn lemma_managers_and_scans_agree(config: ServerConfig, vault: VaultConfig)
    ensures
        ({
            let found = managed(config, vault);
            &&& found.vault_path == vault.path@ && found.scan.root == vault.path@
            &&& found.name == vault.name@
            &&& found.write_backend == vault.write_backend
            &&& found.excluded == found.scan.excluded
            &&& found.subtrees == found.scan.excluded_subtrees
            &&& found.max_file_size == config.max_file_size && found.scan.max_file_size
                == config.max_file_size
            &&& vault.git is None ==> found.include_ignored
            &&& vault.git is Some ==> found.include_ignored == vault.git->0.include_ignored
            &&& found.scan.allowed_extensions == plain_extensions(
                texts(config.allowed_extensions@),
            )
            &&& found.excluded == excluded_names(config)
            &&& found.subtrees == excluded_trees(config)
        }),
{
}

/// Backslashes become slashes, and nothing else changes.
pub proof fn lemma_only_backslashes_are_turned(s: Seq<char>, i: int)
    requires
        0 <= i < s.len(),
    ensures
        forward_slashes(s).len() == s.len(),
        s[i] == '\\' ==> forward_slashes(s)[i] == '/',
        s[i] != '\\' ==> forward_slashes(s)[i] == s[i],
{
}

// ---------------------------------------------------------------------------
// The full-text index
// ---------------------------------------------------------------------------

/// A note is found under the title in its front matter, without one under its first heading,
/// and without any under the name of its file.
pub proof fn lemma_titles_have_an_order(source: Source, path: Seq<char>)
    ensures
        source.title matches Some(title) ==> shown_title(source, path) == title,
        source.title is None ==> (source.first_heading matches Some(heading) ==> shown_title(
            source,
            path,
        ) == heading),
        source.title is None && source.first_heading is None ==> (crate::paths::file_stem(
            path,
        ) matches Some(stem) ==> shown_title(source, path) == stem),
        ({
            let doc = doc_of(path, source);
            &&& doc.path == path
            &&& doc.title == shown_title(source, path)
            &&& doc.content == source.plain
            &&& source.tags matches Some(tags) ==> doc.tags == join(tags, " "@)
            &&& source.tags is None ==> doc.tags.len() == 0
        }),
{
    reveal_strlit("");
}

/// A note is taken into the index where it is there, could be read and is Markdown; the
/// index is built from the notes that are, in order.
pub proof fn lemma_readable_notes_are_indexed(a: Seq<Change>, b: Seq<Change>, change: Change)
    ensures
        is_indexed(change) <==> change.present && change.source is Some && crate::text::ends_with(
            lower_of_text(change.path),
            ".md"@,
        ),
        built(a + b) == built(a) + built(b),
        is_indexed(change) ==> built(seq![change]) == seq![doc_of(change.path, change.source->0)],
        !is_indexed(change) ==> built(seq![change]).len() == 0,
    decreases b.len(),
{
    assert(seq![change].drop_last() =~= Seq::<Change>::empty());
    assert(built(Seq::empty()) =~= Seq::empty());
    if is_indexed(change) {
        assert(built(seq![change]) =~= seq![doc_of(change.path, change.source->0)]);
    }
    if b.len() == 0 {
        assert(a + b =~= a);
        assert(built(a + b) =~= built(a) + built(b));
    } else {
        lemma_readable_notes_are_indexed(a, b.drop_last(), change);
        assert((a + b).drop_last() =~= a + b.drop_last());
        assert(built(a + b) =~= built(a) + built(b));
    }
}

} // verus!
