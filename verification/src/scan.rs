//! Scanning a vault: what is descended into, what is a file to list, and what a
//! scan observes of it.
use crate::config::{default_position, ServerConfig};
use crate::index::{in_subtree, lies_in_subtree};
use crate::paths::{ends_in, extension, extension_of, has_extension, path_from, relative_to};
use crate::text::{
    ascii_lowered, chars_of, copy, copy_texts, distinct, has_text, lemma_distinct, lower_of_text,
    opt_texts, same, slice_text, texts, to_lowercase, without_repeats,
};
use vstd::prelude::*;

verus! {

// ---------------------------------------------------------------------------
// What is observed
// ---------------------------------------------------------------------------

/// A file found by a scan, with what the scan read of it.
#[derive(Debug)]
pub struct ScannedNote {
    /// The absolute path.
    pub path: String,
    /// The size in bytes.
    pub size_bytes: u64,
    /// When the file was last modified, in nanoseconds since the epoch, where the
    /// platform tells. Kept whole: two edits within a millisecond differ in it.
    pub modified: Option<i128>,
}

/// The revision of a file that was observed.
#[derive(Debug, Clone, Copy, PartialEq, Eq, Structural)]
pub struct FileFingerprint {
    pub size_bytes: u64,
    pub modified: Option<i128>,
}

/// Whole milliseconds since the epoch. A time before it has none, nor has one
/// that does not fit.
pub open spec fn millis_of(nanos: int) -> Option<u64> {
    if 0 <= nanos && nanos / 1_000_000 <= u64::MAX {
        Some((nanos / 1_000_000) as u64)
    } else {
        None
    }
}

/// The milliseconds of an optional time.
pub open spec fn opt_millis(time: Option<i128>) -> Option<u64> {
    match time {
        Some(nanos) => millis_of(nanos as int),
        None => None,
    }
}

/// Whole milliseconds since the epoch.
pub fn system_time_millis(value: i128) -> (r: Option<u64>)
    ensures
        r == millis_of(value as int),
{
    if value < 0 {
        return None;
    }
    let millis: i128 = value / 1_000_000;
    if millis <= u64::MAX as i128 {
        Some(millis as u64)
    } else {
        None
    }
}

/// The revision that a scan saw of a file.
pub open spec fn print_of(note: ScannedNote) -> FileFingerprint {
    FileFingerprint { size_bytes: note.size_bytes, modified: note.modified }
}

impl ScannedNote {
    /// When the file was last modified, in whole milliseconds since the epoch.
    pub fn modified_ms(&self) -> (r: Option<u64>)
        ensures
            r == opt_millis(self.modified),
    {
        match self.modified {
            Some(nanos) => system_time_millis(nanos),
            None => None,
        }
    }

    /// The revision that the scan saw.
    pub fn fingerprint(&self) -> (r: FileFingerprint)
        ensures
            r == print_of(*self),
    {
        FileFingerprint { size_bytes: self.size_bytes, modified: self.modified }
    }
}

/// The revision of what was read between two observations: known only where both
/// saw the same.
pub fn stable_fingerprint(before: Option<FileFingerprint>, after: Option<FileFingerprint>) -> (r:
    Option<FileFingerprint>)
    ensures
        r == if before == after {
            after
        } else {
            None
        },
{
    match (before, after) {
        (Some(a), Some(b)) => {
            let same_time: bool = match (a.modified, b.modified) {
                (Some(x), Some(y)) => x == y,
                (None, None) => true,
                _ => false,
            };
            if a.size_bytes == b.size_bytes && same_time {
                after
            } else {
                None
            }
        },
        _ => None,
    }
}

/// Whether a path leads to a note: a Markdown file, in upper or lower case. The
/// note cache, the link graph and the search index hold these and nothing else.
pub fn is_note(path: &str) -> (r: bool)
    ensures
        r == has_extension(path@, "md"@),
{
    ends_in(path, "md")
}

// ---------------------------------------------------------------------------
// What is scanned
// ---------------------------------------------------------------------------

/// The components that no setting can open: the server's own records.
pub const PROTECTED_COMPONENTS: [&'static str; 1] = [".turbovault"];

/// What a scan needs to know.
#[derive(Debug)]
pub struct ScanSpec {
    root: String,
    excluded: Vec<String>,
    excluded_subtrees: Vec<String>,
    allowed_extensions: Vec<String>,
    max_file_size: u64,
}

/// The model of what a scan needs to know.
pub struct ScanRules {
    pub root: Seq<char>,
    /// Names that are passed over, wherever they occur.
    pub excluded: Seq<Seq<char>>,
    /// Subtrees that are passed over.
    pub excluded_subtrees: Seq<Seq<char>>,
    /// Extensions that are listed, in lower case and without a dot.
    pub allowed_extensions: Seq<Seq<char>>,
    pub max_file_size: u64,
}

impl View for ScanSpec {
    type V = ScanRules;

    closed spec fn view(&self) -> ScanRules {
        ScanRules {
            root: self.root@,
            excluded: texts(self.excluded@),
            excluded_subtrees: texts(self.excluded_subtrees@),
            allowed_extensions: texts(self.allowed_extensions@),
            max_file_size: self.max_file_size,
        }
    }
}

impl ScanRules {
    /// Whether nothing occurs twice among the names and the extensions.
    pub open spec fn holds_sets(self) -> bool {
        self.excluded.no_duplicates() && self.allowed_extensions.no_duplicates()
    }
}

/// The text without the dots it begins with.
pub open spec fn without_dots(s: Seq<char>) -> Seq<char>
    decreases s.len(),
{
    if s.len() > 0 && s[0] == '.' {
        without_dots(s.drop_first())
    } else {
        s
    }
}

/// The extensions as they are compared, each once.
pub open spec fn plain_extensions(all: Seq<Seq<char>>) -> Seq<Seq<char>> {
    distinct(all.map_values(|ext: Seq<char>| lower_of_text(without_dots(ext))))
}

/// The texts of an optional list, none where there is no list.
pub open spec fn or_none(o: Option<Seq<Seq<char>>>) -> Seq<Seq<char>> {
    match o {
        Some(all) => all,
        None => Seq::empty(),
    }
}

/// What the server leaves out and what its default vault leaves out besides.
pub open spec fn with_vault(
    config: ServerConfig,
    base: Seq<Seq<char>>,
    more: spec_fn(crate::config::VaultConfig) -> Option<Seq<Seq<char>>>,
) -> Seq<Seq<char>> {
    match default_position(config.vaults@) {
        Some(at) => base + or_none(more(config.vaults@[at])),
        None => base,
    }
}

/// The names that are left out, each once.
pub open spec fn excluded_names(config: ServerConfig) -> Seq<Seq<char>> {
    distinct(
        with_vault(
            config,
            texts(config.excluded_paths@),
            |v: crate::config::VaultConfig| opt_texts(v.excluded_paths),
        ),
    )
}

/// The subtrees that are left out.
pub open spec fn excluded_trees(config: ServerConfig) -> Seq<Seq<char>> {
    with_vault(
        config,
        texts(config.excluded_subtrees@),
        |v: crate::config::VaultConfig| opt_texts(v.excluded_subtrees),
    )
}

/// Appends copies of the strings of an optional list.
fn append_opt(out: &mut Vec<String>, more: &Option<Vec<String>>)
    ensures
        texts(final(out)@) == texts(old(out)@) + or_none(opt_texts(*more)),
{
    let ghost before = texts(out@);
    match more {
        Some(all) => {
            let mut copies = copy_texts(all);
            let ghost added = texts(copies@);
            out.append(&mut copies);
            assert(texts(out@) =~= before + added);
        },
        None => {
            assert(before =~= before + Seq::<Seq<char>>::empty());
        },
    }
}

/// The names that are left out, each once.
pub fn names_left_out(config: &ServerConfig) -> (out: Vec<String>)
    ensures
        texts(out@) == excluded_names(*config),
{
    let mut out = copy_texts(&config.excluded_paths);
    match config.default_vault() {
        Ok(vault) => {
            append_opt(&mut out, &vault.excluded_paths);
        },
        Err(_) => {},
    }
    without_repeats(&out)
}

/// The subtrees that are left out.
pub fn subtrees_left_out(config: &ServerConfig) -> (out: Vec<String>)
    ensures
        texts(out@) == excluded_trees(*config),
{
    let mut out = copy_texts(&config.excluded_subtrees);
    match config.default_vault() {
        Ok(vault) => {
            append_opt(&mut out, &vault.excluded_subtrees);
        },
        Err(_) => {},
    }
    out
}

/// The text without the dots it begins with.
fn skip_dots(s: &str) -> (out: String)
    ensures
        out@ == without_dots(s@),
{
    let chars = chars_of(s);
    let mut at: usize = 0;
    assert(s@.skip(0) =~= s@);
    while at < chars.len() && chars[at] == '.'
        invariant
            at <= chars.len(),
            chars@ == s@,
            without_dots(s@) == without_dots(s@.skip(at as int)),
        decreases chars.len() - at,
    {
        assert(s@.skip(at as int).drop_first() =~= s@.skip(at + 1));
        at = at + 1;
    }
    let out = slice_text(&chars, at, chars.len());
    assert(out@ =~= s@.skip(at as int));
    out
}

/// The extensions as they are compared, each once.
fn plain_list(all: &Vec<String>) -> (out: Vec<String>)
    ensures
        texts(out@) == plain_extensions(texts(all@)),
{
    let mut out: Vec<String> = Vec::new();
    let mut i: usize = 0;
    while i < all.len()
        invariant
            i <= all.len(),
            out.len() == i,
            forall|k: int|
                0 <= k < i ==> #[trigger] out@[k]@ == lower_of_text(without_dots(all@[k]@)),
        decreases all.len() - i,
    {
        out.push(to_lowercase(skip_dots(all[i].as_str()).as_str()));
        i = i + 1;
    }
    assert(texts(out@) =~= texts(all@).map_values(
        |ext: Seq<char>| lower_of_text(without_dots(ext)),
    ));
    without_repeats(&out)
}

/// Whether the text holds an ASCII letter in upper case.
pub open spec fn has_upper(s: Seq<char>) -> bool {
    exists|i: int| 0 <= i < s.len() && 'A' <= #[trigger] s[i] <= 'Z'
}

/// Whether an extension is listed: as it is, or in lower case where it holds an
/// ASCII letter in upper case.
pub open spec fn admits(allowed: Seq<Seq<char>>, ext: Seq<char>) -> bool {
    allowed.contains(ext) || (has_upper(ext) && allowed.contains(lower_of_text(ext)))
}

/// What an entry of a directory is.
#[derive(Debug, Clone, Copy, PartialEq, Eq, Structural)]
pub enum EntryKind {
    Directory,
    File,
    /// A link, a pipe, a socket or a device, or something that could not be told.
    Other,
}

/// An entry of a directory, as it was found.
#[derive(Debug)]
pub struct DirEntry {
    /// The absolute path.
    pub path: String,
    /// The name, where it is text.
    pub name: Option<String>,
    pub kind: EntryKind,
    /// The size in bytes and the time of the last change, where they could be read.
    pub metadata: Option<(u64, Option<i128>)>,
}

/// What a scan makes of an entry.
#[derive(Debug, Clone, Copy, PartialEq, Eq, Structural)]
pub enum Visit {
    Skip,
    Descend,
    List,
}

/// What a scan makes of an entry. Names that are left out are passed over whatever
/// they are, and so is what lies in a subtree that is left out. Links are neither
/// followed nor listed. A file is listed where its extension is, and where it is
/// not too large.
pub open spec fn visit_of(rules: ScanRules, entry: DirEntry) -> Visit {
    match entry.name {
        None => Visit::Skip,
        Some(name) => if name@ == PROTECTED_COMPONENTS@[0]@ || rules.excluded.contains(name@)
            || in_subtree(relative_to(entry.path@, rules.root), rules.excluded_subtrees) {
            Visit::Skip
        } else {
            match entry.kind {
                EntryKind::Directory => Visit::Descend,
                EntryKind::Other => Visit::Skip,
                EntryKind::File => match extension(entry.path@) {
                    None => Visit::Skip,
                    Some(ext) => match entry.metadata {
                        None => Visit::Skip,
                        Some((size, modified)) => if admits(rules.allowed_extensions, ext) && size
                            <= rules.max_file_size {
                            Visit::List
                        } else {
                            Visit::Skip
                        },
                    },
                },
            }
        },
    }
}

proof fn lemma_plain_extensions(all: Seq<Seq<char>>)
    ensures
        plain_extensions(all).no_duplicates(),
{
    lemma_distinct(all.map_values(|ext: Seq<char>| lower_of_text(without_dots(ext))));
}

impl ScanSpec {
    #[verifier::type_invariant]
    spec fn holds_sets(self) -> bool {
        self@.holds_sets()
    }

    /// What a scan of the default vault of a server needs to know.
    pub fn new(config: &ServerConfig, root: &str) -> (r: ScanSpec)
        ensures
            r@ == (ScanRules {
                root: root@,
                excluded: excluded_names(*config),
                excluded_subtrees: excluded_trees(*config),
                allowed_extensions: plain_extensions(texts(config.allowed_extensions@)),
                max_file_size: config.max_file_size,
            }),
            r@.holds_sets(),
    {
        proof {
            lemma_distinct(
                with_vault(
                    *config,
                    texts(config.excluded_paths@),
                    |v: crate::config::VaultConfig| opt_texts(v.excluded_paths),
                ),
            );
            lemma_plain_extensions(texts(config.allowed_extensions@));
        }
        ScanSpec {
            root: copy(root),
            excluded: names_left_out(config),
            excluded_subtrees: subtrees_left_out(config),
            allowed_extensions: plain_list(&config.allowed_extensions),
            max_file_size: config.max_file_size,
        }
    }

    /// The same scan for other extensions, with another limit of size.
    pub fn for_extensions(&self, extensions: &Vec<String>, max_bytes: u64) -> (r: ScanSpec)
        ensures
            r@ == (ScanRules {
                allowed_extensions: plain_extensions(texts(extensions@)),
                max_file_size: max_bytes,
                ..self@
            }),
            r@.holds_sets(),
    {
        proof {
            use_type_invariant(self);
            lemma_plain_extensions(texts(extensions@));
        }
        ScanSpec {
            root: self.root.clone(),
            excluded: copy_texts(&self.excluded),
            excluded_subtrees: copy_texts(&self.excluded_subtrees),
            allowed_extensions: plain_list(extensions),
            max_file_size: max_bytes,
        }
    }

    /// Whether an extension is listed. For an extension of ASCII characters the
    /// case of its letters does not matter.
    pub fn admits_extension(&self, ext: &str) -> (r: bool)
        ensures
            r == admits(self@.allowed_extensions, ext@),
            (forall|i: int| 0 <= i < ext@.len() ==> (#[trigger] ext@[i] as u32) < 128) && has_upper(
                ext@,
            ) ==> r == (self@.allowed_extensions.contains(ext@)
                || self@.allowed_extensions.contains(ascii_lowered(ext@))),
    {
        if has_text(&self.allowed_extensions, ext) {
            return true;
        }
        let lowered = to_lowercase(ext);
        let chars = chars_of(ext);
        let mut upper: bool = false;
        let mut i: usize = 0;
        while i < chars.len()
            invariant
                i <= chars.len(),
                chars@ == ext@,
                upper == exists|k: int| 0 <= k < i && 'A' <= #[trigger] ext@[k] <= 'Z',
            decreases chars.len() - i,
        {
            if 'A' <= chars[i] && chars[i] <= 'Z' {
                assert('A' <= ext@[i as int] <= 'Z');
                upper = true;
            }
            i = i + 1;
        }
        upper && has_text(&self.allowed_extensions, lowered.as_str())
    }

    /// What a scan makes of an entry.
    pub fn visit(&self, entry: &DirEntry) -> (r: Visit)
        ensures
            r == visit_of(self@, *entry),
    {
        match &entry.name {
            None => Visit::Skip,
            Some(name) => {
                if same(name.as_str(), PROTECTED_COMPONENTS[0]) || has_text(
                    &self.excluded,
                    name.as_str(),
                ) {
                    return Visit::Skip;
                }
                let relative = path_from(entry.path.as_str(), self.root.as_str());
                if lies_in_subtree(relative.as_str(), &self.excluded_subtrees) {
                    return Visit::Skip;
                }
                match entry.kind {
                    EntryKind::Directory => Visit::Descend,
                    EntryKind::Other => Visit::Skip,
                    EntryKind::File => match extension_of(entry.path.as_str()) {
                        None => Visit::Skip,
                        Some(ext) => match entry.metadata {
                            None => Visit::Skip,
                            Some((size, _)) => if self.admits_extension(ext.as_str()) && size
                                <= self.max_file_size {
                                Visit::List
                            } else {
                                Visit::Skip
                            },
                        },
                    },
                }
            },
        }
    }
}

// ---------------------------------------------------------------------------
// The walk
// ---------------------------------------------------------------------------

/// A scan under way: directories that are still to be read, and what was found.
#[derive(Debug)]
pub struct Walk {
    pub pending: Vec<String>,
    pub notes: Vec<ScannedNote>,
}

/// The model of a file that was found.
pub struct Found {
    pub path: Seq<char>,
    pub size_bytes: u64,
    pub modified: Option<i128>,
}

/// The model of files that were found.
pub open spec fn found(v: Seq<ScannedNote>) -> Seq<Found> {
    v.map_values(
        |n: ScannedNote| Found { path: n.path@, size_bytes: n.size_bytes, modified: n.modified },
    )
}

/// The file of an entry whose metadata could be read.
pub open spec fn found_at(entry: DirEntry) -> Found {
    Found {
        path: entry.path@,
        size_bytes: (entry.metadata->0).0,
        modified: (entry.metadata->0).1,
    }
}

/// The directories among the entries that are descended into.
pub open spec fn descended(rules: ScanRules, entries: Seq<DirEntry>) -> Seq<Seq<char>>
    decreases entries.len(),
{
    if entries.len() == 0 {
        Seq::empty()
    } else if visit_of(rules, entries.last()) == Visit::Descend {
        descended(rules, entries.drop_last()).push(entries.last().path@)
    } else {
        descended(rules, entries.drop_last())
    }
}

/// The files among the entries that are listed.
pub open spec fn listed(rules: ScanRules, entries: Seq<DirEntry>) -> Seq<Found>
    decreases entries.len(),
{
    if entries.len() == 0 {
        Seq::empty()
    } else if visit_of(rules, entries.last()) == Visit::List {
        listed(rules, entries.drop_last()).push(found_at(entries.last()))
    } else {
        listed(rules, entries.drop_last())
    }
}

impl Walk {
    /// A scan that begins at a directory.
    pub fn start(root: &str) -> (r: Walk)
        ensures
            texts(r.pending@) == seq![root@],
            r.notes@.len() == 0,
    {
        let mut pending: Vec<String> = Vec::new();
        pending.push(copy(root));
        assert(texts(pending@) =~= seq![root@]);
        Walk { pending, notes: Vec::new() }
    }

    /// The next directory to read, the one that was found last.
    pub fn next(&mut self) -> (r: Option<String>)
        ensures
            final(self).notes == old(self).notes,
            match r {
                Some(dir) => old(self).pending@.len() > 0 && texts(final(self).pending@) == texts(
                    old(self).pending@,
                ).drop_last() && dir@ == texts(old(self).pending@).last(),
                None => old(self).pending@.len() == 0 && final(self).pending@.len() == 0,
            },
    {
        let ghost before = texts(self.pending@);
        match self.pending.pop() {
            Some(dir) => {
                assert(texts(self.pending@) =~= before.drop_last());
                assert(before.last() == dir@);
                Some(dir)
            },
            None => None,
        }
    }

    /// Takes in the entries of a directory.
    pub fn enter(&mut self, spec: &ScanSpec, entries: &Vec<DirEntry>)
        ensures
            texts(final(self).pending@) == texts(old(self).pending@) + descended(spec@, entries@),
            found(final(self).notes@) == found(old(self).notes@) + listed(spec@, entries@),
    {
        let ghost dirs = texts(self.pending@);
        let ghost files = found(self.notes@);
        let mut i: usize = 0;
        assert(texts(self.pending@) =~= dirs + descended(spec@, entries@.take(0)));
        assert(found(self.notes@) =~= files + listed(spec@, entries@.take(0)));
        while i < entries.len()
            invariant
                i <= entries.len(),
                texts(self.pending@) == dirs + descended(spec@, entries@.take(i as int)),
                found(self.notes@) == files + listed(spec@, entries@.take(i as int)),
            decreases entries.len() - i,
        {
            assert(entries@.take(i + 1).drop_last() =~= entries@.take(i as int));
            let ghost dirs_before = texts(self.pending@);
            let ghost files_before = found(self.notes@);
            match spec.visit(&entries[i]) {
                Visit::Skip => {},
                Visit::Descend => {
                    self.pending.push(entries[i].path.clone());
                    assert(texts(self.pending@) =~= dirs_before.push(entries@[i as int].path@));
                },
                Visit::List => {
                    match entries[i].metadata {
                        Some((size, modified)) => {
                            let note = ScannedNote {
                                path: entries[i].path.clone(),
                                size_bytes: size,
                                modified,
                            };
                            self.notes.push(note);
                            assert(found(self.notes@) =~= files_before.push(
                                Found {
                                    path: entries@[i as int].path@,
                                    size_bytes: size,
                                    modified,
                                },
                            ));
                        },
                        None => {},
                    }
                },
            }
            assert(texts(self.pending@) =~= dirs + descended(spec@, entries@.take(i + 1)));
            assert(found(self.notes@) =~= files + listed(spec@, entries@.take(i + 1)));
            i = i + 1;
        }
        assert(entries@.take(i as int) =~= entries@);
    }
}

// ---------------------------------------------------------------------------
// Laws
// ---------------------------------------------------------------------------

/// A link is neither followed nor listed, whatever it is called.
pub proof fn lemma_links_are_skipped(rules: ScanRules, entry: DirEntry)
    requires
        entry.kind == EntryKind::Other,
    ensures
        visit_of(rules, entry) == Visit::Skip,
{
}

/// The server's own records are never walked, whatever the settings say.
pub proof fn lemma_own_records_are_skipped(rules: ScanRules, entry: DirEntry)
    requires
        entry.name matches Some(name) && name@ == PROTECTED_COMPONENTS@[0]@,
    ensures
        visit_of(rules, entry) == Visit::Skip,
{
}

/// Nothing in a subtree that is left out is listed or descended into.
pub proof fn lemma_excluded_subtrees_are_skipped(rules: ScanRules, entry: DirEntry)
    requires
        in_subtree(relative_to(entry.path@, rules.root), rules.excluded_subtrees),
    ensures
        visit_of(rules, entry) == Visit::Skip,
{
}

/// What reading each directory gives.
pub type Disk = spec_fn(Seq<char>) -> Seq<DirEntry>;

/// A scan after some steps: the directories that were read, those that are still to be read,
/// and what was found.
#[verifier::ext_equal]
pub struct ScanState {
    pub read: Seq<Seq<char>>,
    pub pending: Seq<Seq<char>>,
    pub notes: Seq<Found>,
}

/// A scan after so many directories were taken with `Walk::next` and given to `Walk::enter`,
/// or as many as there were.
pub open spec fn scan_after(rules: ScanRules, disk: Disk, root: Seq<char>, steps: nat) -> ScanState
    decreases steps,
{
    if steps == 0 {
        ScanState { read: Seq::empty(), pending: seq![root], notes: Seq::empty() }
    } else {
        let before = scan_after(rules, disk, root, (steps - 1) as nat);
        if before.pending.len() == 0 {
            before
        } else {
            let dir = before.pending.last();
            ScanState {
                read: before.read.push(dir),
                pending: before.pending.drop_last() + descended(rules, disk(dir)),
                notes: before.notes + listed(rules, disk(dir)),
            }
        }
    }
}

/// Whether one of the entries is this directory, and is descended into.
pub open spec fn leads_to(rules: ScanRules, entries: Seq<DirEntry>, dir: Seq<char>) -> bool {
    exists|i: int|
        0 <= i < entries.len() && visit_of(rules, #[trigger] entries[i]) == Visit::Descend
            && entries[i].path@ == dir
}

/// Whether these directories lead from the root down, each to the next.
pub open spec fn is_way(
    rules: ScanRules,
    disk: Disk,
    root: Seq<char>,
    way: Seq<Seq<char>>,
) -> bool {
    &&& way.len() > 0
    &&& way[0] == root
    &&& forall|i: int| 0 <= i < way.len() - 1 ==> leads_to(rules, disk(#[trigger] way[i]), way[i + 1])
}

/// Whether a directory can be reached from the root.
pub open spec fn is_reached(
    rules: ScanRules,
    disk: Disk,
    root: Seq<char>,
    dir: Seq<char>,
) -> bool {
    exists|way: Seq<Seq<char>>| #[trigger] is_way(rules, disk, root, way) && way.last() == dir
}

/// Whether a file is listed among the entries of a directory that can be reached.
pub open spec fn is_admitted(
    rules: ScanRules,
    disk: Disk,
    root: Seq<char>,
    file: Found,
) -> bool {
    exists|dir: Seq<char>, i: int|
        is_reached(rules, disk, root, dir) && 0 <= i < disk(dir).len() && visit_of(
            rules,
            #[trigger] disk(dir)[i],
        ) == Visit::List && file == found_at(disk(dir)[i])
}

/// Whether the directories that can be reached form a tree: no two of their entries have the
/// same path, and none is the root.
pub open spec fn is_tree(rules: ScanRules, disk: Disk, root: Seq<char>) -> bool {
    &&& forall|dir: Seq<char>, i: int|
        is_reached(rules, disk, root, dir) && 0 <= i < disk(dir).len() ==> (#[trigger] disk(
            dir,
        )[i]).path@ != root
    &&& forall|dir: Seq<char>, i: int, other: Seq<char>, j: int|
        is_reached(rules, disk, root, dir) && is_reached(rules, disk, root, other) && 0 <= i < disk(
            dir,
        ).len() && 0 <= j < disk(other).len() && (#[trigger] disk(dir)[i]).path@ == (
        #[trigger] disk(other)[j]).path@ ==> dir == other && i == j
}

proof fn lemma_descended(rules: ScanRules, entries: Seq<DirEntry>)
    ensures
        forall|dir: Seq<char>| #[trigger]
            descended(rules, entries).contains(dir) <==> leads_to(rules, entries, dir),
    decreases entries.len(),
{
    let all = descended(rules, entries);
    if entries.len() > 0 {
        let front = entries.drop_last();
        let before = descended(rules, front);
        lemma_descended(rules, front);
        let last = entries.last();
        assert forall|dir: Seq<char>| #[trigger] all.contains(dir) implies leads_to(
            rules,
            entries,
            dir,
        ) by {
            let k = choose|k: int| 0 <= k < all.len() && all[k] == dir;
            if k < before.len() {
                assert(before[k] == dir);
                assert(before.contains(dir));
                let i = choose|i: int|
                    0 <= i < front.len() && visit_of(rules, #[trigger] front[i]) == Visit::Descend
                        && front[i].path@ == dir;
                assert(entries[i] == front[i]);
            } else {
                assert(entries[entries.len() - 1] == last);
            }
        }
        assert forall|dir: Seq<char>| leads_to(rules, entries, dir) implies #[trigger] all.contains(
            dir,
        ) by {
            let i = choose|i: int|
                0 <= i < entries.len() && visit_of(rules, #[trigger] entries[i]) == Visit::Descend
                    && entries[i].path@ == dir;
            if i < front.len() {
                assert(front[i] == entries[i]);
                assert(before.contains(dir));
                let k = choose|k: int| 0 <= k < before.len() && before[k] == dir;
                assert(all[k] == dir);
            } else {
                assert(all[all.len() - 1] == dir);
            }
        }
    }
}

/// Entries with different paths lead to different directories.
proof fn lemma_descended_once(rules: ScanRules, entries: Seq<DirEntry>)
    requires
        forall|i: int, j: int|
            0 <= i < j < entries.len() ==> (#[trigger] entries[i]).path@ != (
            #[trigger] entries[j]).path@,
    ensures
        descended(rules, entries).no_duplicates(),
    decreases entries.len(),
{
    if entries.len() > 0 {
        let front = entries.drop_last();
        let before = descended(rules, front);
        assert forall|i: int, j: int| 0 <= i < j < front.len() implies (#[trigger] front[i]).path@
            != (#[trigger] front[j]).path@ by {
            assert(entries[i].path@ != entries[j].path@);
        }
        lemma_descended_once(rules, front);
        lemma_descended(rules, front);
        if before.contains(entries.last().path@) {
            let i = choose|i: int|
                0 <= i < front.len() && visit_of(rules, #[trigger] front[i]) == Visit::Descend
                    && front[i].path@ == entries.last().path@;
            assert(leads_to(rules, front, entries.last().path@));
            assert(entries[i].path@ != entries[entries.len() - 1].path@);
        }
        let all = descended(rules, entries);
        assert forall|i: int, j: int| 0 <= i < all.len() && 0 <= j < all.len() && i
            != j implies all[i] != all[j] by {
            if i < before.len() && j < before.len() {
                assert(before[i] != before[j]);
            } else if i < before.len() {
                assert(before.contains(before[i]));
            } else {
                assert(before.contains(before[j]));
            }
        }
    }
}

/// What is listed of entries: those that are, each as often as it is there.
proof fn lemma_listed(rules: ScanRules, entries: Seq<DirEntry>, k: int) -> (i: int)
    requires
        0 <= k < listed(rules, entries).len(),
    ensures
        0 <= i < entries.len(),
        visit_of(rules, entries[i]) == Visit::List,
        listed(rules, entries)[k] == found_at(entries[i]),
    decreases entries.len(),
{
    let front = entries.drop_last();
    let before = listed(rules, front);
    if k < before.len() {
        let i = lemma_listed(rules, front, k);
        assert(front[i] == entries[i]);
        i
    } else {
        entries.len() - 1
    }
}

proof fn lemma_listed_holds(rules: ScanRules, entries: Seq<DirEntry>, i: int)
    requires
        0 <= i < entries.len(),
        visit_of(rules, entries[i]) == Visit::List,
    ensures
        listed(rules, entries).contains(found_at(entries[i])),
    decreases entries.len(),
{
    let front = entries.drop_last();
    let all = listed(rules, entries);
    if i < front.len() {
        assert(front[i] == entries[i]);
        lemma_listed_holds(rules, front, i);
        let before = listed(rules, front);
        let k = choose|k: int| 0 <= k < before.len() && before[k] == found_at(entries[i]);
        assert(all[k] == before[k]);
    } else {
        assert(all[all.len() - 1] == found_at(entries[i]));
    }
}

/// Entries with different paths give different files.
proof fn lemma_listed_once(rules: ScanRules, entries: Seq<DirEntry>)
    requires
        forall|i: int, j: int|
            0 <= i < j < entries.len() ==> (#[trigger] entries[i]).path@ != (
            #[trigger] entries[j]).path@,
    ensures
        forall|i: int, j: int|
            0 <= i < j < listed(rules, entries).len() ==> (#[trigger] listed(
                rules,
                entries,
            )[i]).path != (#[trigger] listed(rules, entries)[j]).path,
    decreases entries.len(),
{
    if entries.len() > 0 {
        let front = entries.drop_last();
        let before = listed(rules, front);
        let all = listed(rules, entries);
        assert forall|i: int, j: int| 0 <= i < j < front.len() implies (#[trigger] front[i]).path@
            != (#[trigger] front[j]).path@ by {
            assert(entries[i].path@ != entries[j].path@);
        }
        lemma_listed_once(rules, front);
        assert forall|i: int, j: int| 0 <= i < j < all.len() implies (#[trigger] all[i]).path != (
        #[trigger] all[j]).path by {
            assert(all[i] == before[i]);
            if j < before.len() {
                assert(all[j] == before[j]);
            } else {
                let k = lemma_listed(rules, front, i);
                assert(entries[k] == front[k]);
                assert(entries[k].path@ != entries[entries.len() - 1].path@);
            }
        }
    }
}

/// What holds of a scan of a tree at any time.
spec fn keeps_track(rules: ScanRules, disk: Disk, root: Seq<char>, state: ScanState) -> bool {
    let known = state.read + state.pending;
    &&& known.no_duplicates()
    &&& known.contains(root)
    &&& forall|i: int| 0 <= i < known.len() ==> is_reached(rules, disk, root, #[trigger] known[i])
    // Each has its parent among those that were read.
    &&& forall|i: int|
        0 <= i < known.len() && #[trigger] known[i] != root ==> exists|k: int|
            0 <= k < state.read.len() && leads_to(rules, disk(#[trigger] state.read[k]), known[i])
    // What was read leads to nothing else.
    &&& forall|k: int, dir: Seq<char>|
        0 <= k < state.read.len() && #[trigger] leads_to(rules, disk(state.read[k]), dir)
            ==> known.contains(dir)
    // The files are those of the directories that were read, each once.
    &&& forall|n: int|
        0 <= n < state.notes.len() ==> exists|k: int, i: int|
            0 <= k < state.read.len() && 0 <= i < disk(state.read[k]).len() && visit_of(
                rules,
                #[trigger] disk(state.read[k])[i],
            ) == Visit::List && #[trigger] state.notes[n] == found_at(disk(state.read[k])[i])
    &&& forall|k: int, i: int|
        0 <= k < state.read.len() && 0 <= i < disk(state.read[k]).len() && visit_of(
            rules,
            #[trigger] disk(state.read[k])[i],
        ) == Visit::List ==> state.notes.contains(found_at(disk(state.read[k])[i]))
    &&& forall|n: int, m: int|
        0 <= n < m < state.notes.len() ==> (#[trigger] state.notes[n]).path != (
        #[trigger] state.notes[m]).path
}

proof fn lemma_way_goes_on(
    rules: ScanRules,
    disk: Disk,
    root: Seq<char>,
    dir: Seq<char>,
    next: Seq<char>,
)
    requires
        is_reached(rules, disk, root, dir),
        leads_to(rules, disk(dir), next),
    ensures
        is_reached(rules, disk, root, next),
{
    let way = choose|way: Seq<Seq<char>>| #[trigger]
        is_way(rules, disk, root, way) && way.last() == dir;
    let longer = way.push(next);
    assert forall|i: int| 0 <= i < longer.len() - 1 implies leads_to(
        rules,
        disk(#[trigger] longer[i]),
        longer[i + 1],
    ) by {
        assert(longer[i] == way[i]);
        if i < way.len() - 1 {
            assert(longer[i + 1] == way[i + 1]);
        }
    }
    assert(is_way(rules, disk, root, longer) && longer.last() == next);
}

proof fn lemma_root_is_reached(rules: ScanRules, disk: Disk, root: Seq<char>)
    ensures
        is_reached(rules, disk, root, root),
{
    let way = seq![root];
    assert(is_way(rules, disk, root, way) && way.last() == root);
}

proof fn lemma_entries_differ(rules: ScanRules, disk: Disk, root: Seq<char>, dir: Seq<char>)
    requires
        is_tree(rules, disk, root),
        is_reached(rules, disk, root, dir),
    ensures
        forall|i: int, j: int|
            0 <= i < j < disk(dir).len() ==> (#[trigger] disk(dir)[i]).path@ != (#[trigger] disk(
                dir,
            )[j]).path@,
{
}

/// Reading a directory keeps track of the directories.
proof fn lemma_step_directories(
    rules: ScanRules,
    disk: Disk,
    root: Seq<char>,
    state: ScanState,
    next: ScanState,
)
    requires
        is_tree(rules, disk, root),
        keeps_track(rules, disk, root, state),
        state.pending.len() > 0,
        next.read == state.read.push(state.pending.last()),
        next.pending == state.pending.drop_last() + descended(rules, disk(state.pending.last())),
    ensures
        ({
            let known = next.read + next.pending;
            &&& known.no_duplicates()
            &&& known.contains(root)
            &&& forall|i: int|
                0 <= i < known.len() ==> is_reached(rules, disk, root, #[trigger] known[i])
            &&& forall|i: int|
                0 <= i < known.len() && #[trigger] known[i] != root ==> exists|k: int|
                    0 <= k < next.read.len() && leads_to(
                        rules,
                        disk(#[trigger] next.read[k]),
                        known[i],
                    )
            &&& forall|k: int, dir: Seq<char>|
                0 <= k < next.read.len() && #[trigger] leads_to(rules, disk(next.read[k]), dir)
                    ==> known.contains(dir)
        }),
{
    let dir = state.pending.last();
    let more = descended(rules, disk(dir));
    let known = state.read + state.pending;
    let all = next.read + next.pending;
    let rest = state.pending.drop_last();
    let n = state.read.len() as int;
    lemma_descended(rules, disk(dir));
    assert(known[known.len() - 1] == dir);
    assert(is_reached(rules, disk, root, known[known.len() - 1]));
    lemma_entries_differ(rules, disk, root, dir);
    lemma_descended_once(rules, disk(dir));
    // The old directories stand in another order in front of the new ones.
    let moved = next.read + rest;
    assert(all =~= moved + more);
    assert forall|i: int| 0 <= i < moved.len() implies known.contains(#[trigger] moved[i]) by {
        if i < n {
            assert(known[i] == moved[i]);
        } else if i == n {
            assert(known[known.len() - 1] == moved[i]);
        } else {
            assert(known[i - 1] == moved[i]);
        }
    }
    assert forall|i: int| 0 <= i < known.len() implies moved.contains(#[trigger] known[i]) by {
        if i < n {
            assert(moved[i] == known[i]);
        } else if i == known.len() - 1 {
            assert(moved[n] == known[i]);
        } else {
            assert(moved[i + 1] == known[i]);
        }
    }
    assert forall|i: int, j: int| 0 <= i < moved.len() && 0 <= j < moved.len() && i
        != j implies moved[i] != moved[j] by {
        let a = if i < n { i } else if i == n { known.len() - 1 } else { i - 1 };
        let b = if j < n { j } else if j == n { known.len() - 1 } else { j - 1 };
        assert(known[a] == moved[i] && known[b] == moved[j] && a != b);
    }
    // A new directory was not known: its only parent was not read before.
    assert forall|i: int| 0 <= i < more.len() implies !known.contains(#[trigger] more[i]) by {
        assert(more.contains(more[i]));
        let at = choose|at: int|
            0 <= at < disk(dir).len() && visit_of(rules, #[trigger] disk(dir)[at])
                == Visit::Descend && disk(dir)[at].path@ == more[i];
        assert(more[i] != root);
        if known.contains(more[i]) {
            let j = choose|j: int| 0 <= j < known.len() && known[j] == more[i];
            let k = choose|k: int|
                0 <= k < state.read.len() && leads_to(
                    rules,
                    disk(#[trigger] state.read[k]),
                    known[j],
                );
            let parent = state.read[k];
            assert(known[k] == parent);
            assert(is_reached(rules, disk, root, known[k]));
            let from = choose|from: int|
                0 <= from < disk(parent).len() && visit_of(rules, #[trigger] disk(parent)[from])
                    == Visit::Descend && disk(parent)[from].path@ == known[j];
            assert(disk(dir)[at].path@ == disk(parent)[from].path@);
            assert(parent == dir);
            assert(known[k] == known[known.len() - 1]);
        }
    }
    assert forall|i: int, j: int| 0 <= i < all.len() && 0 <= j < all.len() && i
        != j implies all[i] != all[j] by {
        let m = moved.len() as int;
        if i < m && j < m {
            assert(moved[i] != moved[j]);
        } else if i < m {
            assert(known.contains(moved[i]) && !known.contains(more[j - m]));
        } else if j < m {
            assert(known.contains(moved[j]) && !known.contains(more[i - m]));
        } else {
            assert(more[i - m] != more[j - m]);
        }
    }
    assert forall|d: Seq<char>| known.contains(d) implies #[trigger] all.contains(d) by {
        let i = choose|i: int| 0 <= i < known.len() && known[i] == d;
        assert(moved.contains(known[i]));
        let j = choose|j: int| 0 <= j < moved.len() && moved[j] == d;
        assert(all[j] == d);
    }
    assert forall|i: int| 0 <= i < all.len() implies is_reached(
        rules,
        disk,
        root,
        #[trigger] all[i],
    ) by {
        if i < moved.len() {
            assert(known.contains(moved[i]));
            let j = choose|j: int| 0 <= j < known.len() && known[j] == moved[i];
            assert(is_reached(rules, disk, root, known[j]));
        } else {
            assert(more.contains(more[i - moved.len()]));
            lemma_way_goes_on(rules, disk, root, dir, all[i]);
        }
    }
    assert forall|i: int| 0 <= i < all.len() && #[trigger] all[i] != root implies exists|k: int|
        0 <= k < next.read.len() && leads_to(rules, disk(#[trigger] next.read[k]), all[i]) by {
        if i < moved.len() {
            assert(known.contains(moved[i]));
            let j = choose|j: int| 0 <= j < known.len() && known[j] == moved[i];
            let k = choose|k: int|
                0 <= k < state.read.len() && leads_to(
                    rules,
                    disk(#[trigger] state.read[k]),
                    known[j],
                );
            assert(next.read[k] == state.read[k]);
        } else {
            assert(more.contains(more[i - moved.len()]));
            assert(next.read[n] == dir);
        }
    }
    assert forall|k: int, d: Seq<char>|
        0 <= k < next.read.len() && #[trigger] leads_to(
            rules,
            disk(next.read[k]),
            d,
        ) implies all.contains(d) by {
        if k < n {
            assert(next.read[k] == state.read[k]);
            assert(known.contains(d));
        } else {
            assert(more.contains(d));
            let j = choose|j: int| 0 <= j < more.len() && more[j] == d;
            assert(all[moved.len() + j] == d);
        }
    }
}

/// Reading a directory keeps track of the files.
proof fn lemma_step_files(
    rules: ScanRules,
    disk: Disk,
    root: Seq<char>,
    state: ScanState,
    next: ScanState,
)
    requires
        is_tree(rules, disk, root),
        keeps_track(rules, disk, root, state),
        state.pending.len() > 0,
        next.read == state.read.push(state.pending.last()),
        next.notes == state.notes + listed(rules, disk(state.pending.last())),
    ensures
        forall|n: int|
            0 <= n < next.notes.len() ==> exists|k: int, i: int|
                0 <= k < next.read.len() && 0 <= i < disk(next.read[k]).len() && visit_of(
                    rules,
                    #[trigger] disk(next.read[k])[i],
                ) == Visit::List && #[trigger] next.notes[n] == found_at(disk(next.read[k])[i]),
        forall|k: int, i: int|
            0 <= k < next.read.len() && 0 <= i < disk(next.read[k]).len() && visit_of(
                rules,
                #[trigger] disk(next.read[k])[i],
            ) == Visit::List ==> next.notes.contains(found_at(disk(next.read[k])[i])),
        forall|n: int, m: int|
            0 <= n < m < next.notes.len() ==> (#[trigger] next.notes[n]).path != (
            #[trigger] next.notes[m]).path,
{
    let dir = state.pending.last();
    let known = state.read + state.pending;
    let last = state.read.len() as int;
    let old = state.notes.len() as int;
    let more = listed(rules, disk(dir));
    assert(known[known.len() - 1] == dir);
    assert(is_reached(rules, disk, root, known[known.len() - 1]));
    lemma_entries_differ(rules, disk, root, dir);
    lemma_listed_once(rules, disk(dir));
    assert(next.read[last] == dir);
    assert forall|n: int| 0 <= n < next.notes.len() implies exists|k: int, i: int|
        0 <= k < next.read.len() && 0 <= i < disk(next.read[k]).len() && visit_of(
            rules,
            #[trigger] disk(next.read[k])[i],
        ) == Visit::List && #[trigger] next.notes[n] == found_at(disk(next.read[k])[i]) by {
        if n < old {
            assert(next.notes[n] == state.notes[n]);
            let (k, i) = choose|k: int, i: int|
                0 <= k < state.read.len() && 0 <= i < disk(state.read[k]).len() && visit_of(
                    rules,
                    #[trigger] disk(state.read[k])[i],
                ) == Visit::List && state.notes[n] == found_at(disk(state.read[k])[i]);
            assert(next.read[k] == state.read[k]);
            assert(disk(next.read[k])[i] == disk(state.read[k])[i]);
        } else {
            let i = lemma_listed(rules, disk(dir), n - old);
            assert(disk(next.read[last])[i] == disk(dir)[i]);
        }
    }
    assert forall|k: int, i: int|
        0 <= k < next.read.len() && 0 <= i < disk(next.read[k]).len() && visit_of(
            rules,
            #[trigger] disk(next.read[k])[i],
        ) == Visit::List implies next.notes.contains(found_at(disk(next.read[k])[i])) by {
        let file = found_at(disk(next.read[k])[i]);
        if k < last {
            assert(next.read[k] == state.read[k]);
            assert(visit_of(rules, disk(state.read[k])[i]) == Visit::List);
            assert(state.notes.contains(file));
            let n = choose|n: int| 0 <= n < old && state.notes[n] == file;
            assert(next.notes[n] == file);
        } else {
            lemma_listed_holds(rules, disk(dir), i);
            let n = choose|n: int| 0 <= n < more.len() && more[n] == file;
            assert(next.notes[old + n] == file);
        }
    }
    assert forall|n: int, m: int| 0 <= n < m < next.notes.len() implies (
    #[trigger] next.notes[n]).path != (#[trigger] next.notes[m]).path by {
        if m < old {
            assert(state.notes[n].path != state.notes[m].path);
        } else if n >= old {
            assert(more[n - old].path != more[m - old].path);
        } else {
            assert(next.notes[n] == state.notes[n]);
            let (k, i) = choose|k: int, i: int|
                0 <= k < state.read.len() && 0 <= i < disk(state.read[k]).len() && visit_of(
                    rules,
                    #[trigger] disk(state.read[k])[i],
                ) == Visit::List && state.notes[n] == found_at(disk(state.read[k])[i]);
            let j = lemma_listed(rules, disk(dir), m - old);
            let other = state.read[k];
            assert(known[k] == other);
            assert(is_reached(rules, disk, root, known[k]));
            if disk(other)[i].path@ == disk(dir)[j].path@ {
                assert(other == dir);
                assert(known[k] == known[known.len() - 1]);
            }
        }
    }
}

proof fn lemma_scan_keeps_track(rules: ScanRules, disk: Disk, root: Seq<char>, steps: nat)
    requires
        is_tree(rules, disk, root),
    ensures
        keeps_track(rules, disk, root, scan_after(rules, disk, root, steps)),
    decreases steps,
{
    let next = scan_after(rules, disk, root, steps);
    if steps == 0 {
        lemma_root_is_reached(rules, disk, root);
        let known = next.read + next.pending;
        assert(known =~= seq![root]);
        assert(known[0] == root);
    } else {
        lemma_scan_keeps_track(rules, disk, root, (steps - 1) as nat);
        let state = scan_after(rules, disk, root, (steps - 1) as nat);
        if state.pending.len() > 0 {
            lemma_step_directories(rules, disk, root, state, next);
            lemma_step_files(rules, disk, root, state, next);
        }
    }
}

/// A directory that can be reached was read, once nothing is left to read.
proof fn lemma_reached_is_read(
    rules: ScanRules,
    disk: Disk,
    root: Seq<char>,
    state: ScanState,
    way: Seq<Seq<char>>,
)
    requires
        keeps_track(rules, disk, root, state),
        state.pending.len() == 0,
        is_way(rules, disk, root, way),
    ensures
        state.read.contains(way.last()),
    decreases way.len(),
{
    let known = state.read + state.pending;
    assert(known =~= state.read);
    if way.len() > 1 {
        let front = way.drop_last();
        assert forall|i: int| 0 <= i < front.len() - 1 implies leads_to(
            rules,
            disk(#[trigger] front[i]),
            front[i + 1],
        ) by {
            assert(front[i] == way[i] && front[i + 1] == way[i + 1]);
        }
        lemma_reached_is_read(rules, disk, root, state, front);
        let k = choose|k: int| 0 <= k < state.read.len() && state.read[k] == front.last();
        assert(way[way.len() - 2] == front.last());
        assert(leads_to(rules, disk(state.read[k]), way.last()));
    }
}

/// A scan that has nothing left to read found exactly the files that are admitted: those of
/// the directories that can be reached from the root without entering what is left out. Over
/// a tree it found each of them once.
pub proof fn lemma_scan_finds_each_file_once(
    rules: ScanRules,
    disk: Disk,
    root: Seq<char>,
    steps: nat,
)
    requires
        is_tree(rules, disk, root),
        scan_after(rules, disk, root, steps).pending.len() == 0,
    ensures
        ({
            let notes = scan_after(rules, disk, root, steps).notes;
            &&& forall|file: Found| #[trigger]
                notes.contains(file) <==> is_admitted(rules, disk, root, file)
            &&& forall|i: int, j: int|
                0 <= i < j < notes.len() ==> (#[trigger] notes[i]).path != (
                #[trigger] notes[j]).path
        }),
{
    let state = scan_after(rules, disk, root, steps);
    let notes = state.notes;
    lemma_scan_keeps_track(rules, disk, root, steps);
    let known = state.read + state.pending;
    assert(known =~= state.read);
    assert forall|file: Found| #[trigger] notes.contains(file) implies is_admitted(
        rules,
        disk,
        root,
        file,
    ) by {
        let n = choose|n: int| 0 <= n < notes.len() && notes[n] == file;
        let (k, i) = choose|k: int, i: int|
            0 <= k < state.read.len() && 0 <= i < disk(state.read[k]).len() && visit_of(
                rules,
                #[trigger] disk(state.read[k])[i],
            ) == Visit::List && notes[n] == found_at(disk(state.read[k])[i]);
        assert(is_reached(rules, disk, root, known[k]));
        assert(visit_of(rules, disk(state.read[k])[i]) == Visit::List);
    }
    assert forall|file: Found| is_admitted(rules, disk, root, file) implies #[trigger] notes.contains(
        file,
    ) by {
        let (dir, i) = choose|dir: Seq<char>, i: int|
            is_reached(rules, disk, root, dir) && 0 <= i < disk(dir).len() && visit_of(
                rules,
                #[trigger] disk(dir)[i],
            ) == Visit::List && file == found_at(disk(dir)[i]);
        let way = choose|way: Seq<Seq<char>>| #[trigger]
            is_way(rules, disk, root, way) && way.last() == dir;
        lemma_reached_is_read(rules, disk, root, state, way);
        let k = choose|k: int| 0 <= k < state.read.len() && state.read[k] == dir;
        assert(visit_of(rules, disk(state.read[k])[i]) == Visit::List);
    }
}

} // verus!
