//! The stored index of chunks: when it may be used, what it leaves out and what
//! it reports of itself.
use crate::paths::{
    begins_with, ends_in, has_extension, lies_under, part_models, parts, parts_of, path_from,
    relative_to, Part, PathPart,
};
use crate::scan::{opt_millis, ScannedNote};
use crate::sorting::{
    comes_before, in_order, insert_by, is_order, lemma_insert_at, lemma_sort_in_order,
    lemma_sort_permutes, lemma_text_order_asymmetric, lemma_text_order_transitive, sort_by,
    text_before,
};
use crate::text::{opt_text, same, texts};
use vstd::prelude::*;

verus! {

/// The layout of the stored index.
pub const INDEX_SCHEMA_VERSION: u32 = 2;

/// The rules by which texts are cut into chunks.
pub const CHUNKER_VERSION: &'static str = "markdown-hierarchy-v2";

/// A chunk of the index. `dimension` is the number of components of its vector.
#[derive(Debug)]
pub struct EmbeddingChunk {
    pub id: String,
    pub path: String,
    pub title: String,
    pub heading: Option<String>,
    pub text: String,
    pub content_hash: String,
    pub dimension: usize,
}

/// The model of a chunk of the index.
pub struct Entry {
    pub id: Seq<char>,
    pub path: Seq<char>,
    pub title: Seq<char>,
    pub heading: Option<Seq<char>>,
    pub text: Seq<char>,
    pub content_hash: Seq<char>,
    pub dimension: nat,
}

impl View for EmbeddingChunk {
    type V = Entry;

    open spec fn view(&self) -> Entry {
        Entry {
            id: self.id@,
            path: self.path@,
            title: self.title@,
            heading: opt_text(self.heading),
            text: self.text@,
            content_hash: self.content_hash@,
            dimension: self.dimension as nat,
        }
    }
}

/// The model of a vector of chunks of the index.
pub open spec fn entries(v: Seq<EmbeddingChunk>) -> Seq<Entry> {
    v.map_values(|c: EmbeddingChunk| c@)
}

/// What the index recorded of an attachment.
#[derive(Debug)]
pub struct DocumentStamp {
    pub path: String,
    pub size_bytes: u64,
    pub modified_millis: Option<u64>,
}

/// The model of the record of an attachment.
pub struct Stamp {
    pub path: Seq<char>,
    pub size_bytes: u64,
    pub modified_millis: Option<u64>,
}

impl View for DocumentStamp {
    type V = Stamp;

    open spec fn view(&self) -> Stamp {
        Stamp {
            path: self.path@,
            size_bytes: self.size_bytes,
            modified_millis: self.modified_millis,
        }
    }
}

/// The model of a vector of records.
pub open spec fn stamps(v: Seq<DocumentStamp>) -> Seq<Stamp> {
    v.map_values(|d: DocumentStamp| d@)
}

/// A stored index.
#[derive(Debug)]
pub struct StoredIndex {
    pub schema_version: u32,
    pub chunker_version: String,
    pub model: String,
    pub vault_path: String,
    pub dimension: usize,
    pub built_at: String,
    pub document_indexing_enabled: bool,
    pub document_max_bytes: u64,
    pub document_manifest: Vec<DocumentStamp>,
    pub chunks: Vec<EmbeddingChunk>,
}

// ---------------------------------------------------------------------------
// Compatibility
// ---------------------------------------------------------------------------

/// Why a stored index cannot be used.
#[derive(Debug, Clone, Copy, PartialEq, Eq, Structural)]
pub enum Mismatch {
    Schema,
    Chunker,
    Model,
    VaultPath,
    DocumentPolicy,
}

impl Mismatch {
    /// The reason in words.
    pub open spec fn words(self) -> Seq<char> {
        match self {
            Mismatch::Schema => "index schema version differs from this build"@,
            Mismatch::Chunker => "index chunker version differs from this build"@,
            Mismatch::Model => "index was built with a different embedding model"@,
            Mismatch::VaultPath => "index was built for a different vault path"@,
            Mismatch::DocumentPolicy => "document indexing configuration changed"@,
        }
    }

    /// The reason in words.
    pub fn reason(self) -> (r: &'static str)
        ensures
            r@ == self.words(),
    {
        match self {
            Mismatch::Schema => "index schema version differs from this build",
            Mismatch::Chunker => "index chunker version differs from this build",
            Mismatch::Model => "index was built with a different embedding model",
            Mismatch::VaultPath => "index was built for a different vault path",
            Mismatch::DocumentPolicy => "document indexing configuration changed",
        }
    }
}

/// The first thing in which an index differs from what is asked of it.
pub open spec fn mismatch(
    index: StoredIndex,
    model: Seq<char>,
    vault_path: Seq<char>,
    document_indexing_enabled: bool,
    document_max_bytes: u64,
) -> Option<Mismatch> {
    if index.schema_version != INDEX_SCHEMA_VERSION {
        Some(Mismatch::Schema)
    } else if index.chunker_version@ != CHUNKER_VERSION@ {
        Some(Mismatch::Chunker)
    } else if index.model@ != model {
        Some(Mismatch::Model)
    } else if index.vault_path@ != vault_path {
        Some(Mismatch::VaultPath)
    } else if index.document_indexing_enabled != document_indexing_enabled
        || index.document_max_bytes != document_max_bytes {
        Some(Mismatch::DocumentPolicy)
    } else {
        None
    }
}

/// Why a stored index cannot be used with the given settings, if it cannot.
/// Nothing is said of how old it is: an index of an older state of the same vault
/// still ranks.
pub fn index_mismatch(
    index: &StoredIndex,
    model: &str,
    vault_path: &str,
    document_indexing_enabled: bool,
    document_max_bytes: u64,
) -> (r: Option<Mismatch>)
    ensures
        r == mismatch(
            *index,
            model@,
            vault_path@,
            document_indexing_enabled,
            document_max_bytes,
        ),
{
    if index.schema_version != INDEX_SCHEMA_VERSION {
        return Some(Mismatch::Schema);
    }
    if !same(index.chunker_version.as_str(), CHUNKER_VERSION) {
        return Some(Mismatch::Chunker);
    }
    if !same(index.model.as_str(), model) {
        return Some(Mismatch::Model);
    }
    if !same(index.vault_path.as_str(), vault_path) {
        return Some(Mismatch::VaultPath);
    }
    if index.document_indexing_enabled != document_indexing_enabled || index.document_max_bytes
        != document_max_bytes {
        return Some(Mismatch::DocumentPolicy);
    }
    None
}

/// Whether two indexes were made the same way, whatever they hold and whenever
/// they were built.
pub open spec fn made_alike(a: StoredIndex, b: StoredIndex) -> bool {
    &&& a.schema_version == b.schema_version
    &&& a.chunker_version@ == b.chunker_version@
    &&& a.model@ == b.model@
    &&& a.vault_path@ == b.vault_path@
    &&& a.document_indexing_enabled == b.document_indexing_enabled
    &&& a.document_max_bytes == b.document_max_bytes
}

/// Only how an index was made decides whether it can be used: its age and its
/// contents do not.
pub proof fn lemma_age_never_makes_incompatible(
    a: StoredIndex,
    b: StoredIndex,
    model: Seq<char>,
    vault_path: Seq<char>,
    documents: bool,
    max_bytes: u64,
)
    requires
        made_alike(a, b),
    ensures
        mismatch(a, model, vault_path, documents, max_bytes) == mismatch(
            b,
            model,
            vault_path,
            documents,
            max_bytes,
        ),
{
}

// ---------------------------------------------------------------------------
// Excluded sources
// ---------------------------------------------------------------------------

/// Whether a path leads to a PDF or a Word document.
pub open spec fn is_document(path: Seq<char>) -> bool {
    has_extension(path, "pdf"@) || has_extension(path, "docx"@)
}

/// Whether a path leads to a PDF or a Word document, in upper or lower case.
pub fn is_document_path(path: &str) -> (r: bool)
    ensures
        r == is_document(path@),
{
    ends_in(path, "pdf") || ends_in(path, "docx")
}

/// Whether this is the name of a directory whose contents are never retrieved.
pub open spec fn is_hidden_name(name: Seq<char>) -> bool {
    name == ".trash"@ || name == ".obsidian"@ || name == ".git"@ || name == "node_modules"@
}

/// Whether a path runs through a directory whose contents are never retrieved.
pub open spec fn is_excluded(path: Seq<char>) -> bool {
    exists|i: int|
        0 <= i < parts(path).len() && (#[trigger] parts(path)[i] matches Part::Normal(name)
            && is_hidden_name(name))
}

/// Whether a path runs through a directory whose contents are never retrieved.
pub fn is_path_excluded(path: &str) -> (r: bool)
    ensures
        r == is_excluded(path@),
{
    let all = parts_of(path);
    let ghost model = parts(path@);
    let mut i: usize = 0;
    while i < all.len()
        invariant
            i <= all.len(),
            model == part_models(all@),
            model == parts(path@),
            forall|k: int|
                0 <= k < i ==> !(#[trigger] model[k] matches Part::Normal(name) && is_hidden_name(
                    name,
                )),
        decreases all.len() - i,
    {
        assert(model[i as int] == all@[i as int]@);
        match &all[i] {
            PathPart::Normal(name) => {
                let name = name.as_str();
                if same(name, ".trash") || same(name, ".obsidian") || same(name, ".git") || same(
                    name,
                    "node_modules",
                ) {
                    return true;
                }
            },
            _ => {},
        }
        i = i + 1;
    }
    false
}

/// Whether a vault-relative path is one of the subtrees or lies in one.
pub open spec fn in_subtree(path: Seq<char>, subtrees: Seq<Seq<char>>) -> bool {
    exists|i: int|
        0 <= i < subtrees.len() && lies_under(parts(path), parts(#[trigger] subtrees[i]))
}

/// Whether a vault-relative path is one of the subtrees or lies in one.
pub fn lies_in_subtree(path: &str, subtrees: &Vec<String>) -> (r: bool)
    ensures
        r == in_subtree(path@, texts(subtrees@)),
{
    let all = parts_of(path);
    let ghost trees = texts(subtrees@);
    let mut i: usize = 0;
    while i < subtrees.len()
        invariant
            i <= subtrees.len(),
            trees == texts(subtrees@),
            part_models(all@) == parts(path@),
            forall|k: int|
                0 <= k < i ==> !lies_under(parts(path@), parts(#[trigger] trees[k])),
        decreases subtrees.len() - i,
    {
        let base = parts_of(subtrees[i].as_str());
        assert(trees[i as int] == subtrees@[i as int]@);
        if begins_with(&all, &base) {
            return true;
        }
        i = i + 1;
    }
    false
}

/// Whether a source is left out of retrieval.
pub open spec fn is_source_excluded(path: Seq<char>, subtrees: Seq<Seq<char>>) -> bool {
    is_excluded(path) || in_subtree(path, subtrees)
}

/// Whether a source is left out of retrieval.
pub fn source_path_is_excluded(path: &str, subtrees: &Vec<String>) -> (r: bool)
    ensures
        r == is_source_excluded(path@, texts(subtrees@)),
{
    is_path_excluded(path) || lies_in_subtree(path, subtrees)
}

/// Whether the index holds a source that is left out of retrieval.
pub open spec fn holds_excluded(index: StoredIndex, subtrees: Seq<Seq<char>>) -> bool {
    ||| exists|i: int|
        0 <= i < index.chunks@.len() && is_source_excluded(
            #[trigger] index.chunks@[i].path@,
            subtrees,
        )
    ||| exists|i: int|
        0 <= i < index.document_manifest@.len() && is_source_excluded(
            #[trigger] index.document_manifest@[i].path@,
            subtrees,
        )
}

/// Whether the index holds a source that is left out of retrieval.
pub fn stored_index_has_excluded_sources(index: &StoredIndex, subtrees: &Vec<String>) -> (r: bool)
    ensures
        r == holds_excluded(*index, texts(subtrees@)),
{
    let mut i: usize = 0;
    while i < index.chunks.len()
        invariant
            i <= index.chunks.len(),
            forall|k: int|
                0 <= k < i ==> !is_source_excluded(
                    #[trigger] index.chunks@[k].path@,
                    texts(subtrees@),
                ),
        decreases index.chunks.len() - i,
    {
        if source_path_is_excluded(index.chunks[i].path.as_str(), subtrees) {
            return true;
        }
        i = i + 1;
    }
    let mut j: usize = 0;
    while j < index.document_manifest.len()
        invariant
            j <= index.document_manifest.len(),
            forall|k: int|
                0 <= k < j ==> !is_source_excluded(
                    #[trigger] index.document_manifest@[k].path@,
                    texts(subtrees@),
                ),
        decreases index.document_manifest.len() - j,
    {
        if source_path_is_excluded(index.document_manifest[j].path.as_str(), subtrees) {
            return true;
        }
        j = j + 1;
    }
    false
}

// ---------------------------------------------------------------------------
// Attachments
// ---------------------------------------------------------------------------

/// The record of an attachment that a scan found.
pub open spec fn stamp_of(vault_path: Seq<char>, document: ScannedNote) -> Stamp {
    Stamp {
        path: relative_to(document.path@, vault_path),
        size_bytes: document.size_bytes,
        modified_millis: opt_millis(document.modified),
    }
}

/// The order of the records: by path.
pub open spec fn stamp_order() -> spec_fn(Stamp, Stamp) -> bool {
    |a: Stamp, b: Stamp| text_before(a.path, b.path)
}

/// The records of the attachments that a scan found, by path.
pub open spec fn manifest(vault_path: Seq<char>, documents: Seq<ScannedNote>) -> Seq<Stamp> {
    sort_by(documents.map_values(|d: ScannedNote| stamp_of(vault_path, d)), stamp_order())
}

/// Puts a record where it belongs.
fn insert_stamp(out: &mut Vec<DocumentStamp>, stamp: DocumentStamp)
    ensures
        stamps(final(out)@) == insert_by(stamps(old(out)@), stamp@, stamp_order()),
{
    let ghost before = stamps(out@);
    let mut k: usize = out.len();
    while k > 0 && comes_before(stamp.path.as_str(), out[k - 1].path.as_str())
        invariant
            k <= out.len(),
            before == stamps(out@),
            forall|j: int|
                k <= j < before.len() ==> stamp_order()(stamp@, #[trigger] before[j]),
        decreases k,
    {
        assert(before[k - 1] == out@[k - 1]@);
        k = k - 1;
    }
    assert(k > 0 ==> before[k - 1] == out@[k - 1]@);
    proof {
        lemma_insert_at(before, stamp@, stamp_order(), k as int);
    }
    out.insert(k, stamp);
    assert(stamps(out@) =~= before.insert(k as int, stamp@));
}

/// The records of the attachments that a scan found, by path.
pub fn document_manifest_for(vault_path: &str, documents: &Vec<ScannedNote>) -> (out: Vec<
    DocumentStamp,
>)
    ensures
        stamps(out@) == manifest(vault_path@, documents@),
{
    let ghost all = documents@.map_values(|d: ScannedNote| stamp_of(vault_path@, d));
    let mut out: Vec<DocumentStamp> = Vec::new();
    let mut i: usize = 0;
    assert(stamps(out@) =~= sort_by(all.take(0), stamp_order()));
    while i < documents.len()
        invariant
            i <= documents.len(),
            all == documents@.map_values(|d: ScannedNote| stamp_of(vault_path@, d)),
            stamps(out@) == sort_by(all.take(i as int), stamp_order()),
        decreases documents.len() - i,
    {
        assert(all.take(i + 1).drop_last() =~= all.take(i as int));
        let stamp = DocumentStamp {
            path: path_from(documents[i].path.as_str(), vault_path),
            size_bytes: documents[i].size_bytes,
            modified_millis: documents[i].modified_ms(),
        };
        assert(stamp@ == all[i as int]);
        insert_stamp(&mut out, stamp);
        i = i + 1;
    }
    assert(all.take(i as int) =~= all);
    out
}

/// The records come out in the order of their paths.
pub proof fn lemma_manifest_sorted(vault_path: Seq<char>, documents: Seq<ScannedNote>)
    ensures
        in_order(manifest(vault_path, documents), stamp_order()),
{
    let lt = stamp_order();
    assert forall|a: Stamp, b: Stamp| #[trigger] lt(a, b) implies !lt(b, a) by {
        lemma_text_order_asymmetric(a.path, b.path);
    }
    assert forall|a: Stamp, b: Stamp, c: Stamp|
        !#[trigger] lt(b, a) && !#[trigger] lt(c, b) implies !lt(c, a) by {
        lemma_text_order_transitive(a.path, b.path, c.path);
    }
    assert(is_order(lt));
    lemma_sort_in_order(documents.map_values(|d: ScannedNote| stamp_of(vault_path, d)), lt);
}

/// The records are those of the attachments, each as often as it occurs. So an attachment
/// that is added, edited or removed changes them, as far as its path, size and time show.
pub proof fn lemma_manifest_tells_changes(
    vault_path: Seq<char>,
    before: Seq<ScannedNote>,
    after: Seq<ScannedNote>,
)
    requires
        before.map_values(|d: ScannedNote| stamp_of(vault_path, d)).to_multiset()
            != after.map_values(|d: ScannedNote| stamp_of(vault_path, d)).to_multiset(),
    ensures
        manifest(vault_path, before) != manifest(vault_path, after),
{
    lemma_sort_permutes(
        before.map_values(|d: ScannedNote| stamp_of(vault_path, d)),
        stamp_order(),
    );
    lemma_sort_permutes(after.map_values(|d: ScannedNote| stamp_of(vault_path, d)), stamp_order());
}

/// Whether two lists of records are the same.
fn same_manifest(a: &Vec<DocumentStamp>, b: &Vec<DocumentStamp>) -> (r: bool)
    ensures
        r == (stamps(a@) == stamps(b@)),
{
    if a.len() != b.len() {
        assert(stamps(a@).len() != stamps(b@).len());
        return false;
    }
    let mut i: usize = 0;
    while i < a.len()
        invariant
            i <= a.len() == b.len(),
            forall|k: int| 0 <= k < i ==> #[trigger] stamps(a@)[k] == stamps(b@)[k],
        decreases a.len() - i,
    {
        let same_time: bool = match (a[i].modified_millis, b[i].modified_millis) {
            (Some(x), Some(y)) => x == y,
            (None, None) => true,
            _ => false,
        };
        if !(same_time && a[i].size_bytes == b[i].size_bytes && same(
            a[i].path.as_str(),
            b[i].path.as_str(),
        )) {
            assert(stamps(a@)[i as int] != stamps(b@)[i as int]);
            return false;
        }
        i = i + 1;
    }
    assert(stamps(a@) =~= stamps(b@));
    true
}

/// Whether the attachments that a scan found differ from those that the index
/// recorded. Without an index nothing has changed.
pub fn document_sources_changed(
    index: &Option<StoredIndex>,
    vault_path: &str,
    documents: &Vec<ScannedNote>,
) -> (r: bool)
    ensures
        r == (index matches Some(stored) && manifest(vault_path@, documents@) != stamps(
            stored.document_manifest@,
        )),
{
    match index {
        Some(stored) => {
            let found = document_manifest_for(vault_path, documents);
            !same_manifest(&found, &stored.document_manifest)
        },
        None => false,
    }
}

} // verus!
