//! What the full-text index holds, and how it follows the notes.
use crate::lines::{join, joined};
use crate::paths::{file_stem, stem_of};
use crate::text::{copy, ends_with, has_suffix, lower_of_text, opt_text, opt_texts, to_lowercase};
use vstd::multiset::Multiset;
use vstd::prelude::*;

verus! {

/// A document of the index.
pub struct IndexDocument {
    /// The path of the note in the vault, by which the document is found again.
    pub path: String,
    pub title: String,
    /// The readable text.
    pub content: String,
    /// The tags, with spaces between them.
    pub tags: String,
}

/// A document of the index, as texts.
pub struct Doc {
    pub path: Seq<char>,
    pub title: Seq<char>,
    pub content: Seq<char>,
    pub tags: Seq<char>,
}

impl View for IndexDocument {
    type V = Doc;

    open spec fn view(&self) -> Doc {
        Doc {
            path: self.path@,
            title: self.title@,
            content: self.content@,
            tags: self.tags@,
        }
    }
}

/// What is read of a note for the index.
pub struct NoteSource {
    /// The title in its front matter.
    pub title: Option<String>,
    /// Its first heading.
    pub first_heading: Option<String>,
    /// The tags in its front matter, if it has any.
    pub tags: Option<Vec<String>>,
    /// Its readable text.
    pub plain: String,
}

/// What is read of a note for the index, as texts.
pub struct Source {
    pub title: Option<Seq<char>>,
    pub first_heading: Option<Seq<char>>,
    pub tags: Option<Seq<Seq<char>>>,
    pub plain: Seq<char>,
}

impl View for NoteSource {
    type V = Source;

    open spec fn view(&self) -> Source {
        Source {
            title: opt_text(self.title),
            first_heading: opt_text(self.first_heading),
            tags: opt_texts(self.tags),
            plain: self.plain@,
        }
    }
}

/// Whether the index takes notes at that path: Markdown files, however the extension is
/// capitalised.
pub open spec fn is_markdown(path: Seq<char>) -> bool {
    ends_with(lower_of_text(path), ".md"@)
}

/// Whether the index takes notes at that path.
pub fn is_markdown_path(path: &str) -> (r: bool)
    ensures
        r == is_markdown(path@),
{
    has_suffix(to_lowercase(path).as_str(), ".md")
}

/// The title under which a note is found: the one in its front matter, else its first
/// heading, else the name of its file.
pub open spec fn shown_title(source: Source, path: Seq<char>) -> Seq<char> {
    match source.title {
        Some(title) => title,
        None => match source.first_heading {
            Some(heading) => heading,
            None => match file_stem(path) {
                Some(stem) => stem,
                None => ""@,
            },
        },
    }
}

/// The document of a note.
pub open spec fn doc_of(path: Seq<char>, source: Source) -> Doc {
    Doc {
        path,
        title: shown_title(source, path),
        content: source.plain,
        tags: match source.tags {
            Some(tags) => join(tags, " "@),
            None => ""@,
        },
    }
}

/// The document of a note.
pub fn document_of(path: &str, source: &NoteSource) -> (r: IndexDocument)
    ensures
        r@ == doc_of(path@, source@),
{
    let title = match &source.title {
        Some(title) => title.clone(),
        None => match &source.first_heading {
            Some(heading) => heading.clone(),
            None => match stem_of(path) {
                Some(stem) => stem,
                None => copy(""),
            },
        },
    };
    let tags = match &source.tags {
        Some(tags) => joined(tags, " "),
        None => copy(""),
    };
    IndexDocument { path: copy(path), title, content: source.plain.clone(), tags }
}

// ---------------------------------------------------------------------------
// Changes
// ---------------------------------------------------------------------------

/// A path that changed: whether a file is there now, and what could be read of it.
pub struct ChangedNote {
    pub path: String,
    pub present: bool,
    pub source: Option<NoteSource>,
}

/// A path that changed, as texts.
pub struct Change {
    pub path: Seq<char>,
    pub present: bool,
    pub source: Option<Source>,
}

impl View for ChangedNote {
    type V = Change;

    open spec fn view(&self) -> Change {
        Change {
            path: self.path@,
            present: self.present,
            source: match self.source {
                Some(source) => Some(source@),
                None => None,
            },
        }
    }
}

/// Changes as models.
pub open spec fn change_models(v: Seq<ChangedNote>) -> Seq<Change> {
    v.map_values(|c: ChangedNote| c@)
}

/// What is done to the index.
pub enum IndexOp {
    /// Every document with this path leaves.
    Delete(String),
    /// This document joins.
    Insert(IndexDocument),
}

/// What is done to the index, as texts.
pub enum Op {
    Delete(Seq<char>),
    Insert(Doc),
}

impl View for IndexOp {
    type V = Op;

    open spec fn view(&self) -> Op {
        match self {
            IndexOp::Delete(path) => Op::Delete(path@),
            IndexOp::Insert(doc) => Op::Insert(doc@),
        }
    }
}

/// Operations as models.
pub open spec fn op_models(v: Seq<IndexOp>) -> Seq<Op> {
    v.map_values(|op: IndexOp| op@)
}

/// Whether the note at a changed path is in the index afterwards.
pub open spec fn is_indexed(change: Change) -> bool {
    change.present && is_markdown(change.path) && change.source is Some
}

/// What a change does to the index: the document of the path leaves, and the one of the
/// note that is there now joins.
pub open spec fn ops_for(change: Change) -> Seq<Op> {
    if is_indexed(change) {
        seq![Op::Delete(change.path), Op::Insert(doc_of(change.path, change.source->0))]
    } else {
        seq![Op::Delete(change.path)]
    }
}

/// What changes do to the index, one after the other.
pub open spec fn all_ops(changes: Seq<Change>) -> Seq<Op>
    decreases changes.len(),
{
    if changes.len() == 0 {
        Seq::empty()
    } else {
        all_ops(changes.drop_last()) + ops_for(changes.last())
    }
}

/// What changes do to the index, in order.
pub fn plan_changes(changes: &Vec<ChangedNote>) -> (out: Vec<IndexOp>)
    ensures
        op_models(out@) == all_ops(change_models(changes@)),
{
    let mut out: Vec<IndexOp> = Vec::new();
    let mut i: usize = 0;
    let ghost all = change_models(changes@);
    while i < changes.len()
        invariant
            i <= changes.len(),
            all == change_models(changes@),
            op_models(out@) == all_ops(all.take(i as int)),
        decreases changes.len() - i,
    {
        let change = &changes[i];
        assert(all.take(i + 1).drop_last() =~= all.take(i as int));
        assert(all.take(i + 1).last() == change@);
        let ghost before = op_models(out@);
        out.push(IndexOp::Delete(change.path.clone()));
        if change.present && is_markdown_path(change.path.as_str()) {
            if let Some(source) = &change.source {
                out.push(IndexOp::Insert(document_of(change.path.as_str(), source)));
            }
        }
        assert(op_models(out@) =~= before + ops_for(change@));
        i = i + 1;
    }
    assert(all.take(i as int) =~= all);
    out
}

/// The documents that an index is built from: those of the Markdown notes that could be
/// read.
pub open spec fn built(files: Seq<Change>) -> Seq<Doc>
    decreases files.len(),
{
    if files.len() == 0 {
        Seq::empty()
    } else if is_indexed(files.last()) {
        built(files.drop_last()).push(doc_of(files.last().path, files.last().source->0))
    } else {
        built(files.drop_last())
    }
}

/// Documents as models.
pub open spec fn doc_models(v: Seq<IndexDocument>) -> Seq<Doc> {
    v.map_values(|d: IndexDocument| d@)
}

/// The documents that an index is built from, given the files of the vault.
pub fn plan_build(files: &Vec<ChangedNote>) -> (out: Vec<IndexDocument>)
    ensures
        doc_models(out@) == built(change_models(files@)),
{
    let mut out: Vec<IndexDocument> = Vec::new();
    let mut i: usize = 0;
    let ghost all = change_models(files@);
    while i < files.len()
        invariant
            i <= files.len(),
            all == change_models(files@),
            doc_models(out@) == built(all.take(i as int)),
        decreases files.len() - i,
    {
        let file = &files[i];
        assert(all.take(i + 1).drop_last() =~= all.take(i as int));
        assert(all.take(i + 1).last() == file@);
        if file.present && is_markdown_path(file.path.as_str()) {
            if let Some(source) = &file.source {
                let ghost before = doc_models(out@);
                let doc = document_of(file.path.as_str(), source);
                out.push(doc);
                assert(doc_models(out@) =~= before.push(doc@));
            }
        }
        i = i + 1;
    }
    assert(all.take(i as int) =~= all);
    out
}

// ---------------------------------------------------------------------------
// What the index promises
// ---------------------------------------------------------------------------

/// The documents after an operation.
pub open spec fn after_op(index: Multiset<Doc>, op: Op) -> Multiset<Doc> {
    match op {
        Op::Delete(path) => index.filter(|d: Doc| d.path != path),
        Op::Insert(doc) => index.insert(doc),
    }
}

/// The documents after some operations.
pub open spec fn after_ops(index: Multiset<Doc>, ops: Seq<Op>) -> Multiset<Doc>
    decreases ops.len(),
{
    if ops.len() == 0 {
        index
    } else {
        after_op(after_ops(index, ops.drop_last()), ops.last())
    }
}

/// The notes that belong into the index, after a change at one path.
pub open spec fn vault_after(vault: Map<Seq<char>, Source>, change: Change) -> Map<
    Seq<char>,
    Source,
> {
    if is_indexed(change) {
        vault.insert(change.path, change.source->0)
    } else {
        vault.remove(change.path)
    }
}

/// The notes that belong into the index, after some changes.
pub open spec fn vault_after_all(
    vault: Map<Seq<char>, Source>,
    changes: Seq<Change>,
) -> Map<Seq<char>, Source>
    decreases changes.len(),
{
    if changes.len() == 0 {
        vault
    } else {
        vault_after(vault_after_all(vault, changes.drop_last()), changes.last())
    }
}

/// Whether the index holds the document of each of the notes once, and nothing else.
pub open spec fn mirrors(index: Multiset<Doc>, vault: Map<Seq<char>, Source>) -> bool {
    forall|doc: Doc| #[trigger]
        index.count(doc) == if vault.dom().contains(doc.path) && doc == doc_of(
            doc.path,
            vault[doc.path],
        ) {
            1nat
        } else {
            0nat
        }
}

/// A change replaces the document of its path, and leaves the others alone: no stale one
/// stays behind, and none is there twice.
pub proof fn lemma_change_replaces_its_document(
    index: Multiset<Doc>,
    change: Change,
    doc: Doc,
)
    ensures
        doc.path != change.path ==> after_ops(index, ops_for(change)).count(doc) == index.count(
            doc,
        ),
        doc.path == change.path ==> after_ops(index, ops_for(change)).count(doc) == if is_indexed(
            change,
        ) && doc == doc_of(change.path, change.source->0) {
            1nat
        } else {
            0nat
        },
{
    broadcast use vstd::multiset::group_multiset_axioms;
    reveal_with_fuel(after_ops, 3);
    let ops = ops_for(change);
    let cleared = after_op(index, Op::Delete(change.path));
    if is_indexed(change) {
        assert(ops.drop_last() =~= seq![Op::Delete(change.path)]);
        assert(ops.drop_last().drop_last() =~= Seq::<Op>::empty());
        assert(after_ops(index, ops) == cleared.insert(doc_of(change.path, change.source->0)));
    } else {
        assert(ops.drop_last() =~= Seq::<Op>::empty());
        assert(after_ops(index, ops) == cleared);
    }
}

proof fn lemma_ops_in_two_steps(index: Multiset<Doc>, a: Seq<Op>, b: Seq<Op>)
    ensures
        after_ops(index, a + b) == after_ops(after_ops(index, a), b),
    decreases b.len(),
{
    if b.len() == 0 {
        assert(a + b =~= a);
    } else {
        assert((a + b).drop_last() =~= a + b.drop_last());
        lemma_ops_in_two_steps(index, a, b.drop_last());
    }
}

/// An index that mirrors the notes still does so after changes were applied to it: following
/// the changes gives what building it anew would give.
pub proof fn lemma_changes_keep_the_index_true(
    index: Multiset<Doc>,
    vault: Map<Seq<char>, Source>,
    changes: Seq<Change>,
)
    requires
        mirrors(index, vault),
    ensures
        mirrors(after_ops(index, all_ops(changes)), vault_after_all(vault, changes)),
    decreases changes.len(),
{
    if changes.len() > 0 {
        let front = changes.drop_last();
        let change = changes.last();
        lemma_changes_keep_the_index_true(index, vault, front);
        lemma_ops_in_two_steps(index, all_ops(front), ops_for(change));
        let before = after_ops(index, all_ops(front));
        let held = vault_after_all(vault, front);
        let after = after_ops(before, ops_for(change));
        let now = vault_after(held, change);
        assert forall|doc: Doc| #[trigger]
            after.count(doc) == if now.dom().contains(doc.path) && doc == doc_of(
                doc.path,
                now[doc.path],
            ) {
                1nat
            } else {
                0nat
            } by {
            lemma_change_replaces_its_document(before, change, doc);
            assert(before.count(doc) == if held.dom().contains(doc.path) && doc == doc_of(
                doc.path,
                held[doc.path],
            ) {
                1nat
            } else {
                0nat
            });
        }
    }
}

/// The index that is built from the files of a vault, no path among them twice, mirrors the
/// notes.
pub proof fn lemma_built_index_is_true(files: Seq<Change>)
    requires
        forall|i: int, j: int|
            0 <= i < j < files.len() ==> (#[trigger] files[i]).path != (#[trigger] files[j]).path,
    ensures
        mirrors(built(files).to_multiset(), vault_after_all(Map::empty(), files)),
    decreases files.len(),
{
    broadcast use vstd::multiset::group_multiset_axioms;
    broadcast use vstd::seq_lib::group_to_multiset_ensures;

    if files.len() == 0 {
        assert(built(files) =~= Seq::<Doc>::empty());
        assert(built(files).to_multiset() =~= Multiset::<Doc>::empty());
    } else {
        let front = files.drop_last();
        let last = files.last();
        assert forall|i: int, j: int| 0 <= i < j < front.len() implies (#[trigger] front[i]).path
            != (#[trigger] front[j]).path by {
            assert(files[i].path != files[j].path);
        }
        lemma_built_index_is_true(front);
        lemma_new_path(front, last.path);
        let held = vault_after_all(Map::empty(), front);
        let now = vault_after_all(Map::empty(), files);
        let before = built(front).to_multiset();
        let after = built(files).to_multiset();
        if is_indexed(last) {
            assert(after =~= before.insert(doc_of(last.path, last.source->0)));
        }
        assert forall|doc: Doc| #[trigger]
            after.count(doc) == if now.dom().contains(doc.path) && doc == doc_of(
                doc.path,
                now[doc.path],
            ) {
                1nat
            } else {
                0nat
            } by {
            assert(before.count(doc) == if held.dom().contains(doc.path) && doc == doc_of(
                doc.path,
                held[doc.path],
            ) {
                1nat
            } else {
                0nat
            });
        }
    }
}

proof fn lemma_new_path(files: Seq<Change>, path: Seq<char>)
    requires
        forall|i: int| 0 <= i < files.len() ==> (#[trigger] files[i]).path != path,
    ensures
        !vault_after_all(Map::empty(), files).dom().contains(path),
    decreases files.len(),
{
    if files.len() > 0 {
        assert forall|i: int| 0 <= i < files.drop_last().len() implies (
        #[trigger] files.drop_last()[i]).path != path by {
            assert(files[i].path != path);
        }
        lemma_new_path(files.drop_last(), path);
        assert(files[files.len() - 1].path != path);
    }
}

} // verus!
